//! Packed turf adjacency: every turf slot keeps up to [`MAX_TURF_NEIGHBORS`] gas neighbors and
//! as many heat neighbors, each list packed at the front and ordered by neighbor slot.
//! Connections are symmetric: a neighbor listed by one turf lists that turf back, with the same
//! firelock state.
use vstd::prelude::*;

use crate::alloc_stats::{bytes_for, reserved_bytes};
use crate::handles::TurfHandle;

verus! {

/// Most neighbors a turf keeps of one kind.
pub const MAX_TURF_NEIGHBORS: usize = 6;

/// A neighboring turf and whether a firelock separates the two.
#[derive(Clone, Copy, Debug, PartialEq, Eq)]
pub struct TopologyNeighbor {
    pub handle: TurfHandle,
    pub firelock: bool,
}

/// Why a topology change was refused.
#[derive(Clone, Copy, Debug, PartialEq, Eq)]
pub enum TopologyError {
    SelfEdge(TurfHandle),
    DegreeExceeded(TurfHandle),
    MissingGasEdge,
    AllocationFailed,
}

/// Whether position `i` of `row` holds a neighbor.
pub open spec fn occupied(row: Seq<Option<TopologyNeighbor>>, i: int) -> bool {
    row[i] is Some
}

/// The neighbor at position `i` of `row`.
pub open spec fn neighbor_at(row: Seq<Option<TopologyNeighbor>>, i: int) -> TopologyNeighbor {
    row[i]->Some_0
}

/// A neighbor list is packed at the front and strictly ordered by neighbor slot.
pub open spec fn row_wf(row: Seq<Option<TopologyNeighbor>>) -> bool {
    &&& row.len() == MAX_TURF_NEIGHBORS
    &&& forall|i: int, j: int|
        #![trigger row[i], row[j]]
        0 <= i < j < MAX_TURF_NEIGHBORS && occupied(row, j) ==> {
            &&& occupied(row, i)
            &&& neighbor_at(row, i).handle.slot < neighbor_at(row, j).handle.slot
        }
}

/// Number of neighbors in a packed list.
pub open spec fn fill(row: Seq<Option<TopologyNeighbor>>) -> nat {
    if !occupied(row, 0) {
        0
    } else if !occupied(row, 1) {
        1
    } else if !occupied(row, 2) {
        2
    } else if !occupied(row, 3) {
        3
    } else if !occupied(row, 4) {
        4
    } else if !occupied(row, 5) {
        5
    } else {
        6
    }
}

/// Whether `row` lists exactly `n`.
pub open spec fn row_has(row: Seq<Option<TopologyNeighbor>>, n: TopologyNeighbor) -> bool {
    exists|i: int| 0 <= i < MAX_TURF_NEIGHBORS && row[i] == Some(n)
}

/// Whether `row` lists a neighbor in slot `slot`.
pub open spec fn row_links(row: Seq<Option<TopologyNeighbor>>, slot: u32) -> bool {
    exists|i: int|
        0 <= i < MAX_TURF_NEIGHBORS && occupied(row, i) && #[trigger] neighbor_at(row, i).handle.slot
            == slot
}

/// Whether `row` lists a neighbor with handle `handle`.
pub open spec fn row_lists(row: Seq<Option<TopologyNeighbor>>, handle: TurfHandle) -> bool {
    exists|i: int|
        0 <= i < MAX_TURF_NEIGHBORS && occupied(row, i) && #[trigger] neighbor_at(row, i).handle
            == handle
}

/// In a packed list, exactly the first `fill` positions are occupied.
pub proof fn lemma_fill(row: Seq<Option<TopologyNeighbor>>)
    requires
        row_wf(row),
    ensures
        fill(row) <= MAX_TURF_NEIGHBORS,
        forall|i: int| 0 <= i < MAX_TURF_NEIGHBORS ==> (occupied(row, i) <==> i < fill(row)),
{
    assert forall|i: int| 0 <= i < MAX_TURF_NEIGHBORS implies (occupied(row, i) <==> i < fill(row)) by {
        if occupied(row, i) {
            assert forall|k: int| 0 <= k < i implies occupied(row, k) by {
                assert(row[k] == row[k]);
                assert(row[i] == row[i]);
            }
        } else {
            assert forall|k: int| i < k < MAX_TURF_NEIGHBORS implies !occupied(row, k) by {
                assert(row[k] == row[k]);
                assert(row[i] == row[i]);
            }
        }
    }
}

/// Number of neighbors in `neighbors`.
fn row_fill(neighbors: &[Option<TopologyNeighbor>; 6]) -> (r: usize)
    requires
        row_wf(neighbors@),
    ensures
        r == fill(neighbors@),
{
    proof {
        lemma_fill(neighbors@);
    }
    let mut count: usize = 0;
    while count < MAX_TURF_NEIGHBORS && neighbors[count].is_some()
        invariant
            count <= MAX_TURF_NEIGHBORS,
            count <= fill(neighbors@),
            row_wf(neighbors@),
            forall|i: int| 0 <= i < MAX_TURF_NEIGHBORS ==> (occupied(neighbors@, i) <==> i < fill(neighbors@)),
        decreases MAX_TURF_NEIGHBORS - count,
    {
        count += 1;
    }
    count
}

/// Position of the neighbor with handle `handle`, if listed.
fn find_in_row(neighbors: &[Option<TopologyNeighbor>; 6], handle: TurfHandle) -> (r: Option<usize>)
    requires
        neighbors@.len() == MAX_TURF_NEIGHBORS,
    ensures
        r matches Some(i) ==> i < MAX_TURF_NEIGHBORS && occupied(neighbors@, i as int)
            && neighbor_at(neighbors@, i as int).handle == handle,
        r is None ==> !row_lists(neighbors@, handle),
{
    let mut index: usize = 0;
    while index < MAX_TURF_NEIGHBORS
        invariant
            index <= MAX_TURF_NEIGHBORS,
            neighbors@.len() == MAX_TURF_NEIGHBORS,
            forall|k: int| 0 <= k < index ==> !(occupied(neighbors@, k) && #[trigger] neighbor_at(neighbors@, k).handle == handle),
        decreases MAX_TURF_NEIGHBORS - index,
    {
        match neighbors[index] {
            Some(neighbor) => {
                if neighbor.handle.same(&handle) {
                    return Some(index);
                }
            },
            None => {},
        }
        index += 1;
    }
    None
}

/// Inserts `neighbor` keeping the list packed and ordered by slot.
fn insert_sorted(neighbors: &mut [Option<TopologyNeighbor>; 6], neighbor: TopologyNeighbor)
    requires
        row_wf(old(neighbors)@),
        fill(old(neighbors)@) < MAX_TURF_NEIGHBORS,
        !row_links(old(neighbors)@, neighbor.handle.slot),
    ensures
        row_wf(final(neighbors)@),
        fill(final(neighbors)@) == fill(old(neighbors)@) + 1,
        forall|n: TopologyNeighbor| #[trigger] row_has(final(neighbors)@, n) == (n == neighbor || row_has(old(neighbors)@, n)),
{
    proof {
        lemma_fill(neighbors@);
    }
    let count = row_fill(neighbors);
    let mut index: usize = 0;
    while index < count && neighbors[index].unwrap().handle.slot < neighbor.handle.slot
        invariant
            index <= count,
            count == fill(neighbors@),
            count < MAX_TURF_NEIGHBORS,
            neighbors@ == old(neighbors)@,
            row_wf(neighbors@),
            forall|i: int| 0 <= i < MAX_TURF_NEIGHBORS ==> (occupied(neighbors@, i) <==> i < fill(neighbors@)),
            forall|k: int| 0 <= k < index ==> neighbor_at(neighbors@, k).handle.slot < neighbor.handle.slot,
        decreases count - index,
    {
        index += 1;
    }
    proof {
        assert forall|k: int| index <= k < count implies neighbor.handle.slot < neighbor_at(neighbors@, k).handle.slot by {
            assert(neighbors@[index as int] == neighbors@[index as int]);
            assert(neighbors@[k] == neighbors@[k]);
            assert(neighbor_at(neighbors@, k).handle.slot != neighbor.handle.slot);
        }
    }
    let mut k: usize = count;
    while k > index
        invariant
            index <= k <= count,
            count < MAX_TURF_NEIGHBORS,
            neighbors@.len() == MAX_TURF_NEIGHBORS,
            forall|i: int| 0 <= i < k ==> neighbors@[i] == old(neighbors)@[i],
            forall|i: int| k < i <= count ==> neighbors@[i] == old(neighbors)@[i - 1],
            forall|i: int| count < i < MAX_TURF_NEIGHBORS ==> neighbors@[i] == old(neighbors)@[i],
        decreases k - index,
    {
        let moved = neighbors[k - 1];
        neighbors[k] = moved;
        k -= 1;
    }
    neighbors[index] = Some(neighbor);
    proof {
        let a = old(neighbors)@;
        let b = neighbors@;
        assert forall|i: int| 0 <= i < MAX_TURF_NEIGHBORS implies (occupied(b, i) <==> i <= count) by {}
        assert(fill(b) == count + 1);
        assert forall|i: int, j: int|
            #![trigger b[i], b[j]]
            0 <= i < j < MAX_TURF_NEIGHBORS && occupied(b, j) implies occupied(b, i) && neighbor_at(b, i).handle.slot < neighbor_at(b, j).handle.slot by {
            assert(a[i] == a[i]);
            assert(a[j] == a[j]);
            if j <= count && i != index && j != index {
                let ai = if i < index { i } else { i - 1 };
                let aj = if j < index { j } else { j - 1 };
                assert(a[ai] == a[ai]);
                assert(a[aj] == a[aj]);
                if ai < aj {
                    assert(neighbor_at(a, ai).handle.slot < neighbor_at(a, aj).handle.slot);
                }
            } else if i == index && j <= count {
                assert(a[j - 1] == a[j - 1]);
            } else if j == index {
                assert(a[i] == a[i]);
            }
        }
        assert forall|n: TopologyNeighbor| #[trigger] row_has(b, n) == (n == neighbor || row_has(a, n)) by {
            if row_has(a, n) {
                let i = choose|i: int| 0 <= i < MAX_TURF_NEIGHBORS && a[i] == Some(n);
                if i < index {
                    assert(b[i] == Some(n));
                } else {
                    assert(b[i + 1] == Some(n));
                }
            }
            if row_has(b, n) && n != neighbor {
                let i = choose|i: int| 0 <= i < MAX_TURF_NEIGHBORS && b[i] == Some(n);
                if i < index {
                    assert(a[i] == Some(n));
                } else {
                    assert(a[i - 1] == Some(n));
                }
            }
            if n == neighbor {
                assert(b[index as int] == Some(n));
            }
        }
    }
}

/// Removes the neighbor at position `index`, shifting the rest forward.
fn remove_at(neighbors: &mut [Option<TopologyNeighbor>; 6], index: usize)
    requires
        row_wf(old(neighbors)@),
        index < MAX_TURF_NEIGHBORS,
        occupied(old(neighbors)@, index as int),
    ensures
        row_wf(final(neighbors)@),
        fill(final(neighbors)@) + 1 == fill(old(neighbors)@),
        forall|n: TopologyNeighbor| #[trigger] row_has(final(neighbors)@, n) == (row_has(old(neighbors)@, n)
            && n != neighbor_at(old(neighbors)@, index as int)),
{
    proof {
        lemma_fill(neighbors@);
    }
    let mut k: usize = index;
    while k + 1 < MAX_TURF_NEIGHBORS
        invariant
            index <= k < MAX_TURF_NEIGHBORS,
            neighbors@.len() == MAX_TURF_NEIGHBORS,
            forall|i: int| 0 <= i < index ==> neighbors@[i] == old(neighbors)@[i],
            forall|i: int| index <= i < k ==> neighbors@[i] == old(neighbors)@[i + 1],
            forall|i: int| k <= i < MAX_TURF_NEIGHBORS ==> neighbors@[i] == old(neighbors)@[i],
        decreases MAX_TURF_NEIGHBORS - k,
    {
        let moved = neighbors[k + 1];
        neighbors[k] = moved;
        k += 1;
    }
    neighbors[MAX_TURF_NEIGHBORS - 1] = None;
    proof {
        let a = old(neighbors)@;
        let b = neighbors@;
        let count = fill(a);
        assert forall|i: int| 0 <= i < MAX_TURF_NEIGHBORS implies (occupied(b, i) <==> i + 1 < count) by {
            if i < index {
                assert(b[i] == a[i]);
            } else if i + 1 < MAX_TURF_NEIGHBORS {
                assert(b[i] == a[i + 1]);
            }
        }
        assert(fill(b) + 1 == count);
        assert forall|i: int, j: int|
            #![trigger b[i], b[j]]
            0 <= i < j < MAX_TURF_NEIGHBORS && occupied(b, j) implies occupied(b, i) && neighbor_at(b, i).handle.slot < neighbor_at(b, j).handle.slot by {
            let ai = if i < index { i } else { i + 1 };
            let aj = if j < index { j } else { j + 1 };
            assert(b[i] == a[ai]);
            assert(b[j] == a[aj]);
            assert(a[ai] == a[ai] && a[aj] == a[aj]);
        }
        assert forall|n: TopologyNeighbor| #[trigger] row_has(b, n) == (row_has(a, n) && n != neighbor_at(a, index as int)) by {
            if row_has(a, n) && n != neighbor_at(a, index as int) {
                let i = choose|i: int| 0 <= i < MAX_TURF_NEIGHBORS && a[i] == Some(n);
                if i < index {
                    assert(b[i] == Some(n));
                } else {
                    assert(i != index);
                    assert(b[i - 1] == Some(n));
                }
            }
            if row_has(b, n) {
                let i = choose|i: int| 0 <= i < MAX_TURF_NEIGHBORS && b[i] == Some(n);
                if i < index {
                    assert(a[i] == Some(n));
                    assert(a[i] == a[i] && a[index as int] == a[index as int]);
                } else {
                    assert(a[i + 1] == Some(n));
                    assert(a[i + 1] == a[i + 1] && a[index as int] == a[index as int]);
                }
            }
        }
    }
}

/// Removes the neighbor with handle `handle`, if listed.
fn remove_neighbor(neighbors: &mut [Option<TopologyNeighbor>; 6], handle: TurfHandle)
    requires
        row_wf(old(neighbors)@),
    ensures
        row_wf(final(neighbors)@),
        row_lists(old(neighbors)@, handle) ==> fill(final(neighbors)@) + 1 == fill(old(neighbors)@),
        !row_lists(old(neighbors)@, handle) ==> final(neighbors)@ == old(neighbors)@,
        forall|n: TopologyNeighbor| #[trigger] row_has(final(neighbors)@, n) == (row_has(old(neighbors)@, n)
            && n.handle != handle),
{
    match find_in_row(neighbors, handle) {
        Some(index) => {
            remove_at(neighbors, index);
            proof {
                let a = old(neighbors)@;
                assert forall|n: TopologyNeighbor| row_has(a, n) && n.handle == handle implies n == neighbor_at(a, index as int) by {
                    let i = choose|i: int| 0 <= i < MAX_TURF_NEIGHBORS && a[i] == Some(n);
                    assert(a[i] == a[i] && a[index as int] == a[index as int]);
                }
            }
        },
        None => {
            proof {
                let a = old(neighbors)@;
                assert forall|n: TopologyNeighbor| row_has(a, n) implies n.handle != handle by {
                    let i = choose|i: int| 0 <= i < MAX_TURF_NEIGHBORS && a[i] == Some(n);
                    assert(neighbor_at(a, i) == n);
                }
            }
        },
    }
}

/// Removes the neighbor in slot `slot`, if listed.
fn remove_neighbor_slot(neighbors: &mut [Option<TopologyNeighbor>; 6], slot: u32)
    requires
        row_wf(old(neighbors)@),
    ensures
        row_wf(final(neighbors)@),
        row_links(old(neighbors)@, slot) ==> fill(final(neighbors)@) + 1 == fill(old(neighbors)@),
        !row_links(old(neighbors)@, slot) ==> final(neighbors)@ == old(neighbors)@,
        forall|n: TopologyNeighbor| #[trigger] row_has(final(neighbors)@, n) == (row_has(old(neighbors)@, n)
            && n.handle.slot != slot),
{
    let mut index: usize = 0;
    while index < MAX_TURF_NEIGHBORS
        invariant
            index <= MAX_TURF_NEIGHBORS,
            neighbors@ == old(neighbors)@,
            row_wf(neighbors@),
            forall|k: int| 0 <= k < index ==> !(occupied(neighbors@, k) && #[trigger] neighbor_at(neighbors@, k).handle.slot == slot),
        decreases MAX_TURF_NEIGHBORS - index,
    {
        let found = match neighbors[index] {
            Some(neighbor) => neighbor.handle.slot == slot,
            None => false,
        };
        if found {
            remove_at(neighbors, index);
            proof {
                let a = old(neighbors)@;
                assert forall|n: TopologyNeighbor| row_has(a, n) && n.handle.slot == slot implies n == neighbor_at(a, index as int) by {
                    let i = choose|i: int| 0 <= i < MAX_TURF_NEIGHBORS && a[i] == Some(n);
                    assert(a[i] == a[i] && a[index as int] == a[index as int]);
                }
            }
            return;
        }
        index += 1;
    }
    proof {
        let a = old(neighbors)@;
        assert forall|n: TopologyNeighbor| row_has(a, n) implies n.handle.slot != slot by {
            let i = choose|i: int| 0 <= i < MAX_TURF_NEIGHBORS && a[i] == Some(n);
            assert(neighbor_at(a, i) == n);
        }
    }
}

/// A packed list with no neighbors.
pub open spec fn empty_row() -> Seq<Option<TopologyNeighbor>> {
    Seq::new(MAX_TURF_NEIGHBORS as nat, |i: int| None::<TopologyNeighbor>)
}

/// Whether `row` lists a neighbor in slot `slot` with firelock state `firelock`.
#[verifier::opaque]
pub open spec fn row_links_with(row: Seq<Option<TopologyNeighbor>>, slot: u32, firelock: bool) -> bool {
    exists|j: int|
        0 <= j < MAX_TURF_NEIGHBORS && occupied(row, j) && #[trigger] neighbor_at(row, j).handle.slot
            == slot && neighbor_at(row, j).firelock == firelock
}

/// A list that lists every neighbor another list lists also links every slot it links.
pub proof fn lemma_links_monotone(a: Seq<Option<TopologyNeighbor>>, b: Seq<Option<TopologyNeighbor>>)
    requires
        forall|n: TopologyNeighbor| #[trigger] row_has(a, n) ==> row_has(b, n),
    ensures
        forall|s: u32, fl: bool| #[trigger] row_links_with(a, s, fl) ==> row_links_with(b, s, fl),
{
    assert forall|s: u32, fl: bool| #[trigger] row_links_with(a, s, fl) implies row_links_with(b, s, fl) by {
        reveal(row_links_with);
        let j = choose|j: int| 0 <= j < MAX_TURF_NEIGHBORS && occupied(a, j) && #[trigger] neighbor_at(a, j).handle.slot == s && neighbor_at(a, j).firelock == fl;
        let n = neighbor_at(a, j);
        assert(a[j] == Some(n));
        assert(row_has(a, n));
        assert(row_has(b, n));
        let k = choose|k: int| 0 <= k < MAX_TURF_NEIGHBORS && b[k] == Some(n);
        assert(neighbor_at(b, k) == n);
    }
}

/// A position that witnesses `row_links_with`.
pub proof fn lemma_links_witness(row: Seq<Option<TopologyNeighbor>>, slot: u32, firelock: bool) -> (j: int)
    requires
        row_links_with(row, slot, firelock),
    ensures
        0 <= j < MAX_TURF_NEIGHBORS,
        occupied(row, j),
        neighbor_at(row, j).handle.slot == slot,
        neighbor_at(row, j).firelock == firelock,
{
    reveal(row_links_with);
    choose|j: int| 0 <= j < MAX_TURF_NEIGHBORS && occupied(row, j) && #[trigger] neighbor_at(row, j).handle.slot == slot && neighbor_at(row, j).firelock == firelock
}

/// An occupied position makes the list link its neighbor's slot.
pub proof fn lemma_links_intro(row: Seq<Option<TopologyNeighbor>>, j: int)
    requires
        0 <= j < MAX_TURF_NEIGHBORS,
        occupied(row, j),
    ensures
        row_links_with(row, neighbor_at(row, j).handle.slot, neighbor_at(row, j).firelock),
{
    reveal(row_links_with);
}

/// Every position of a list holding a neighbor witnesses `row_has`.
pub proof fn lemma_has_at(row: Seq<Option<TopologyNeighbor>>, i: int)
    requires
        0 <= i < MAX_TURF_NEIGHBORS,
        occupied(row, i),
    ensures
        row_has(row, neighbor_at(row, i)),
{
    assert(row[i] == Some(neighbor_at(row, i)));
}

/// A well-formed list is determined by the neighbors it holds: two well-formed lists with
/// the same members agree position by position.
pub proof fn lemma_row_determined(a: Seq<Option<TopologyNeighbor>>, b: Seq<Option<TopologyNeighbor>>)
    requires
        row_wf(a),
        row_wf(b),
        forall|n: TopologyNeighbor| #[trigger] row_has(a, n) == row_has(b, n),
    ensures
        a == b,
{
    lemma_row_prefix(a, b, MAX_TURF_NEIGHBORS as int);
    assert(a =~= b);
}

/// The first `k` positions of two well-formed lists with the same members agree.
proof fn lemma_row_prefix(a: Seq<Option<TopologyNeighbor>>, b: Seq<Option<TopologyNeighbor>>, k: int)
    requires
        row_wf(a),
        row_wf(b),
        forall|n: TopologyNeighbor| #[trigger] row_has(a, n) == row_has(b, n),
        0 <= k <= MAX_TURF_NEIGHBORS,
    ensures
        forall|i: int| 0 <= i < k ==> #[trigger] a[i] == b[i],
    decreases k,
{
    if k > 0 {
        lemma_row_prefix(a, b, k - 1);
        let i = k - 1;
        if occupied(a, i) {
            lemma_row_position(a, b, i);
        } else if occupied(b, i) {
            lemma_row_position(b, a, i);
        }
    }
}

/// Given agreement below position `i`, a neighbor at position `i` of `a` sits at position
/// `i` of `b`.
proof fn lemma_row_position(a: Seq<Option<TopologyNeighbor>>, b: Seq<Option<TopologyNeighbor>>, i: int)
    requires
        row_wf(a),
        row_wf(b),
        forall|n: TopologyNeighbor| #[trigger] row_has(a, n) == row_has(b, n),
        0 <= i < MAX_TURF_NEIGHBORS,
        forall|x: int| 0 <= x < i ==> #[trigger] a[x] == b[x],
        occupied(a, i),
    ensures
        a[i] == b[i],
{
    let n = neighbor_at(a, i);
    assert(a[i] == Some(n));
    assert(row_has(a, n));
    assert(row_has(b, n));
    let p = choose|p: int| 0 <= p < MAX_TURF_NEIGHBORS && b[p] == Some(n);
    if p < i {
        assert(a[p] == b[p]);
        assert(a[p] == a[p] && a[i] == a[i]);
        assert(false);
    } else if p > i {
        assert(b[i] == b[i] && b[p] == b[p]);
        let m = neighbor_at(b, i);
        assert(b[i] == Some(m));
        assert(row_has(b, m));
        assert(row_has(a, m));
        let q = choose|q: int| 0 <= q < MAX_TURF_NEIGHBORS && a[q] == Some(m);
        if q < i {
            assert(a[q] == b[q]);
            assert(b[q] == b[q] && b[i] == b[i]);
            assert(false);
        } else if q == i {
            assert(false);
        } else {
            assert(a[i] == a[i] && a[q] == a[q]);
            assert(false);
        }
    }
}

/// The gas and heat neighbor lists of one turf slot.
#[derive(Clone, Copy)]
struct TopologySlot {
    gas: [Option<TopologyNeighbor>; 6],
    heat: [Option<TopologyNeighbor>; 6],
}

impl TopologySlot {
    /// A slot with no neighbors.
    fn empty() -> (r: Self)
        ensures
            r.gas@ == empty_row(),
            r.heat@ == empty_row(),
    {
        let r = TopologySlot {
            gas: [None, None, None, None, None, None],
            heat: [None, None, None, None, None, None],
        };
        assert(r.gas@ =~= empty_row());
        assert(r.heat@ =~= empty_row());
        r
    }
}

/// The list of the given kind held by `slot`.
spec fn slot_row(slot: TopologySlot, heat: bool) -> Seq<Option<TopologyNeighbor>> {
    if heat {
        slot.heat@
    } else {
        slot.gas@
    }
}

/// Total number of listed neighbors of one kind over `slots`.
spec fn total(slots: Seq<TopologySlot>, heat: bool) -> nat
    decreases slots.len(),
{
    if slots.len() == 0 {
        0
    } else {
        total(slots.drop_last(), heat) + fill(slot_row(slots.last(), heat))
    }
}

/// Replacing one slot changes the total by the difference of its fills.
proof fn lemma_total_update(slots: Seq<TopologySlot>, i: int, slot: TopologySlot, heat: bool)
    requires
        0 <= i < slots.len(),
    ensures
        total(slots.update(i, slot), heat) + fill(slot_row(slots[i], heat)) == total(slots, heat)
            + fill(slot_row(slot, heat)),
    decreases slots.len(),
{
    let updated = slots.update(i, slot);
    if i == slots.len() - 1 {
        assert(updated.drop_last() =~= slots.drop_last());
    } else {
        lemma_total_update(slots.drop_last(), i, slot, heat);
        assert(updated.drop_last() =~= slots.drop_last().update(i, slot));
    }
}

/// Appending an empty slot leaves the total unchanged.
proof fn lemma_total_push_empty(slots: Seq<TopologySlot>, slot: TopologySlot, heat: bool)
    requires
        slot.gas@ == empty_row(),
        slot.heat@ == empty_row(),
    ensures
        total(slots.push(slot), heat) == total(slots, heat),
{
    assert(slots.push(slot).drop_last() =~= slots);
    assert(fill(slot_row(slot, heat)) == 0);
}

/// Symmetric, packed gas and heat adjacency over turf slots.
#[derive(Clone)]
pub struct PackedTopology {
    slots: Vec<TopologySlot>,
    revision: u64,
    gas_edges: usize,
    heat_edges: usize,
}

impl PackedTopology {
    /// Number of slots with storage.
    pub closed spec fn slot_count(self) -> nat {
        self.slots@.len()
    }

    /// The neighbor list of kind `heat` of slot `a` (empty for slots without storage).
    pub closed spec fn row(self, a: int, heat: bool) -> Seq<Option<TopologyNeighbor>> {
        if 0 <= a < self.slots@.len() {
            slot_row(self.slots@[a], heat)
        } else {
            empty_row()
        }
    }

    /// Change counter, bumped by every change of the adjacency.
    pub closed spec fn revision_value(self) -> u64 {
        self.revision
    }

    /// Number of connections of kind `heat`.
    pub closed spec fn edge_count(self, heat: bool) -> nat {
        if heat {
            self.heat_edges as nat
        } else {
            self.gas_edges as nat
        }
    }

    /// Whether entry `e`, listed by slot `a`, is listed back with the same firelock state.
    pub open spec fn linked_back(self, a: int, e: TopologyNeighbor, heat: bool) -> bool {
        &&& (e.handle.slot as int) < self.slot_count()
        &&& e.handle.slot != a
        &&& row_links_with(self.row(e.handle.slot as int, heat), a as u32, e.firelock)
    }

    /// Well-formedness of one kind of list: packed, ordered and symmetric.
    pub open spec fn kind_wf(self, heat: bool) -> bool {
        &&& forall|a: int| 0 <= a < self.slot_count() ==> row_wf(#[trigger] self.row(a, heat))
        &&& forall|a: int, i: int|
            0 <= a < self.slot_count() && 0 <= i < MAX_TURF_NEIGHBORS && occupied(self.row(a, heat), i)
                ==> self.linked_back(a, #[trigger] neighbor_at(self.row(a, heat), i), heat)
    }

    /// Whether the list of kind `heat` of `left`'s slot names `right`'s slot only as `right`
    /// itself. Connecting a pair that fails this would give that list a second entry for one
    /// slot, which no list may hold.
    pub open spec fn names_only(self, left: TurfHandle, right: TurfHandle, heat: bool) -> bool {
        row_links(self.row(left.slot as int, heat), right.slot) ==> row_lists(self.row(left.slot as int, heat), right)
    }

    /// Whether `right`'s list of kind `heat` names `left` whenever `left`'s list names `right`,
    /// so that a change to the pair reaches both of its entries.
    pub open spec fn lists_back(self, left: TurfHandle, right: TurfHandle, heat: bool) -> bool {
        row_lists(self.row(left.slot as int, heat), right) ==> row_lists(self.row(right.slot as int, heat), left)
    }

    /// Internal consistency: both kinds well formed, every connection listed twice, and the
    /// connection counters equal to half the listed neighbors.
    pub closed spec fn wf(self) -> bool {
        &&& self.kind_wf(false)
        &&& self.kind_wf(true)
        &&& self.gas_edges * 2 == total(self.slots@, false)
        &&& self.heat_edges * 2 == total(self.slots@, true)
        &&& self.slots@.len() <= u32::MAX as nat + 1
    }

    /// Adjacency is symmetric: in a well-formed topology, every neighbor that slot `a` lists
    /// lists `a` back, with the same firelock state, and no slot lists itself.
    pub proof fn lemma_adjacency_symmetric(self, a: int, i: int, heat: bool)
        requires
            self.wf(),
            0 <= a < self.slot_count(),
            0 <= i < MAX_TURF_NEIGHBORS,
            occupied(self.row(a, heat), i),
        ensures
            self.linked_back(a, neighbor_at(self.row(a, heat), i), heat),
    {
    }

    /// Every list is packed at the front and ordered by neighbor slot, and a slot without
    /// storage has empty lists.
    pub proof fn lemma_row_shape(self, a: int, heat: bool)
        requires
            self.wf(),
        ensures
            row_wf(self.row(a, heat)),
            !(0 <= a < self.slot_count()) ==> self.row(a, heat) == empty_row(),
            !(0 <= a < self.slot_count()) ==> fill(self.row(a, heat)) == 0,
    {
        if 0 <= a < self.slot_count() {
            assert(row_wf(self.row(a, heat)));
        } else {
            assert(!occupied(empty_row(), 0));
            assert forall|i: int, j: int| 0 <= i < j < MAX_TURF_NEIGHBORS && occupied(empty_row(), j) implies occupied(
                empty_row(),
                i,
            ) by {}
        }
    }

    /// An empty topology.
    pub fn new() -> (r: Self)
        ensures
            r.wf(),
            r.slot_count() == 0,
            r.revision_value() == 0,
            r.edge_count(false) == 0,
            r.edge_count(true) == 0,
    {
        PackedTopology { slots: Vec::new(), revision: 0, gas_edges: 0, heat_edges: 0 }
    }

    /// Change counter of the adjacency.
    pub fn revision(&self) -> (r: u64)
        ensures
            r == self.revision_value(),
    {
        self.revision
    }

    /// Number of gas connections.
    pub fn gas_edge_count(&self) -> (r: usize)
        ensures
            r == self.edge_count(false),
    {
        self.gas_edges
    }

    /// Number of heat connections.
    pub fn heat_edge_count(&self) -> (r: usize)
        ensures
            r == self.edge_count(true),
    {
        self.heat_edges
    }

    /// Bytes taken by `count` slots' storage.
    pub closed spec fn slot_bytes(count: int) -> int {
        bytes_for::<TopologySlot>(count)
    }

    /// Bytes reserved for slot storage: the reserved slot count, at least the number of
    /// slots, times the size of a slot.
    pub fn allocated_bytes(&self) -> (r: u64)
        ensures
            exists|capacity: int| capacity >= self.slot_count() && r == Self::slot_bytes(capacity),
            r >= Self::slot_bytes(self.slot_count() as int),
    {
        let bytes = reserved_bytes(&self.slots);
        proof {
            let capacity = choose|c: int| c >= self.slots@.len() && bytes == bytes_for::<TopologySlot>(c);
            assert(bytes == Self::slot_bytes(capacity));
        }
        bytes as u64
    }
}

impl Default for PackedTopology {
    fn default() -> (r: Self)
        ensures
            r.wf(),
            r.slot_count() == 0,
            r.revision_value() == 0,
            r.edge_count(false) == 0,
            r.edge_count(true) == 0,
    {
        PackedTopology::new()
    }
}

/// `slot` with its list of kind `heat` replaced by `row`.
spec fn with_row(slot: TopologySlot, heat: bool, row: [Option<TopologyNeighbor>; 6]) -> TopologySlot {
    if heat {
        TopologySlot { heat: row, ..slot }
    } else {
        TopologySlot { gas: row, ..slot }
    }
}

impl PackedTopology {
    /// Both kinds of list are well formed and the slot count fits the handle space.
    pub open spec fn shape_wf(self) -> bool {
        &&& self.kind_wf(false)
        &&& self.kind_wf(true)
        &&& self.slot_count() <= u32::MAX as nat + 1
    }

    /// Twice the connection counter of kind `heat` equals the number of listed neighbors.
    closed spec fn count_wf(self, heat: bool) -> bool {
        if heat {
            self.heat_edges * 2 == total(self.slots@, true)
        } else {
            self.gas_edges * 2 == total(self.slots@, false)
        }
    }

    /// Well-formedness depends on the slot contents and counters only.
    proof fn lemma_same_view(self, other: Self)
        requires
            self.slots@ == other.slots@,
            self.gas_edges == other.gas_edges,
            self.heat_edges == other.heat_edges,
        ensures
            self.wf() == other.wf(),
            forall|a: int, heat: bool| #[trigger] self.row(a, heat) == other.row(a, heat),
            self.slot_count() == other.slot_count(),
    {
        assert forall|a: int, heat: bool| #[trigger] self.row(a, heat) == other.row(a, heat) by {}
        if self.wf() {
            Self::lemma_kind_transfer(self, other, false);
            Self::lemma_kind_transfer(self, other, true);
        }
        if other.wf() {
            Self::lemma_kind_transfer(other, self, false);
            Self::lemma_kind_transfer(other, self, true);
        }
    }

    /// `kind_wf` carries over between topologies with the same rows and slot count.
    proof fn lemma_kind_transfer(a: Self, b: Self, heat: bool)
        requires
            a.kind_wf(heat),
            a.slot_count() == b.slot_count(),
            forall|x: int| 0 <= x < a.slot_count() ==> #[trigger] a.row(x, heat) == b.row(x, heat),
        ensures
            b.kind_wf(heat),
    {
        assert forall|x: int| 0 <= x < b.slot_count() implies row_wf(#[trigger] b.row(x, heat)) by {
            assert(a.row(x, heat) == b.row(x, heat));
        }
        assert forall|x: int, i: int|
            0 <= x < b.slot_count() && 0 <= i < MAX_TURF_NEIGHBORS && occupied(b.row(x, heat), i)
                implies b.linked_back(x, #[trigger] neighbor_at(b.row(x, heat), i), heat) by {
            assert(a.row(x, heat) == b.row(x, heat));
            let e = neighbor_at(a.row(x, heat), i);
            assert(a.linked_back(x, e, heat));
            assert(a.row(e.handle.slot as int, heat) == b.row(e.handle.slot as int, heat));
        }
    }

    /// Rows and shape depend on the slot contents only.
    proof fn lemma_same_rows(a: Self, b: Self)
        requires
            a.slots@ == b.slots@,
        ensures
            forall|x: int, heat: bool|
                #![trigger a.row(x, heat)]
                #![trigger b.row(x, heat)]
                a.row(x, heat) == b.row(x, heat),
            a.slot_count() == b.slot_count(),
            a.shape_wf() == b.shape_wf(),
            forall|before: Self, left: TurfHandle, right: TurfHandle, heat: bool, r: Result<bool, TopologyError>|
                #[trigger] Self::connect_outcome(before, a, left, right, heat, r) ==> Self::connect_outcome(before, b, left, right, heat, r),
    {
        assert forall|x: int, heat: bool| #[trigger] a.row(x, heat) == b.row(x, heat) by {}
        if a.shape_wf() {
            Self::lemma_kind_transfer(a, b, false);
            Self::lemma_kind_transfer(a, b, true);
        }
        if b.shape_wf() {
            Self::lemma_kind_transfer(b, a, false);
            Self::lemma_kind_transfer(b, a, true);
        }
        assert forall|before: Self, left: TurfHandle, right: TurfHandle, heat: bool, r: Result<bool, TopologyError>|
            #[trigger] Self::connect_outcome(before, a, left, right, heat, r) implies Self::connect_outcome(before, b, left, right, heat, r) by {
            assert(a.row(left.slot as int, heat) == b.row(left.slot as int, heat));
            assert(a.row(right.slot as int, heat) == b.row(right.slot as int, heat));
            if Self::rows_kept(before, a, heat, left.slot as int, right.slot as int) {
                assert forall|x: int, k: bool|
                    (k != heat || (x != left.slot as int && x != right.slot as int)) implies #[trigger] b.row(x, k) == before.row(x, k) by {
                    assert(a.row(x, k) == b.row(x, k));
                }
            }
        }
    }

    proof fn lemma_wf_parts(self)
        ensures
            self.wf() == (self.shape_wf() && self.count_wf(false) && self.count_wf(true)),
    {
    }

    /// Grows the slot storage so that `slot` exists.
    fn ensure_slot(&mut self, slot: u32) -> (r: Result<(), TopologyError>)
        requires
            old(self).wf(),
        ensures
            final(self).wf(),
            final(self).revision == old(self).revision,
            final(self).gas_edges == old(self).gas_edges,
            final(self).heat_edges == old(self).heat_edges,
            forall|a: int, heat: bool| #[trigger] final(self).row(a, heat) == old(self).row(a, heat),
            final(self).slot_count() >= old(self).slot_count(),
            (slot as nat) < old(self).slot_count() ==> r is Ok && final(self).slot_count() == old(self).slot_count(),
            match r {
                Ok(()) => (slot as nat) < final(self).slot_count(),
                Err(e) => e == TopologyError::AllocationFailed && final(self).slot_count() == old(self).slot_count(),
            },
    {
        let current = self.slots.len();
        let required = match (slot as usize).checked_add(1) {
            Some(required) => required,
            None => return Err(TopologyError::AllocationFailed),
        };
        if required > self.slots.len() {
            let reserved = self.slots.try_reserve(required - self.slots.len());
            proof {
                self.lemma_same_view(*old(self));
            }
            if reserved.is_err() {
                return Err(TopologyError::AllocationFailed);
            }
            while self.slots.len() < required
                invariant
                    self.wf(),
                    self.revision == old(self).revision,
                    self.gas_edges == old(self).gas_edges,
                    self.heat_edges == old(self).heat_edges,
                    forall|a: int, heat: bool| #[trigger] self.row(a, heat) == old(self).row(a, heat),
                    self.slot_count() >= old(self).slot_count(),
                    required == slot as nat + 1,
                    self.slots@.len() <= required,
                decreases required - self.slots@.len(),
            {
                let empty = TopologySlot::empty();
                let ghost before = *self;
                self.slots.push(empty);
                proof {
                    lemma_total_push_empty(before.slots@, empty, false);
                    lemma_total_push_empty(before.slots@, empty, true);
                    assert forall|a: int, heat: bool| #[trigger] self.row(a, heat) == before.row(a, heat) by {
                        if a == before.slots@.len() {
                            assert(self.row(a, heat) == empty_row());
                        }
                    }
                    assert forall|a: int| 0 <= a < empty_row().len() implies !#[trigger] occupied(empty_row(), a) by {}
                }
            }
        }
        Ok(())
    }

    /// The list of kind `heat` of `handle`'s slot.
    fn neighbors_array(&self, handle: TurfHandle, heat: bool) -> (r: &[Option<TopologyNeighbor>; 6])
        requires
            (handle.slot as nat) < self.slot_count(),
        ensures
            r@ == self.row(handle.slot as int, heat),
    {
        if heat {
            &self.slots[handle.slot as usize].heat
        } else {
            &self.slots[handle.slot as usize].gas
        }
    }

    /// The neighbor with handle `right` listed by `left`'s slot, if any.
    fn find_neighbor(&self, left: TurfHandle, right: TurfHandle, heat: bool) -> (r: Option<&TopologyNeighbor>)
        requires
            forall|a: int| 0 <= a < self.slot_count() ==> row_wf(#[trigger] self.row(a, heat)),
        ensures
            r is Some == row_lists(self.row(left.slot as int, heat), right),
            r matches Some(n) ==> n.handle == right && row_has(self.row(left.slot as int, heat), *n),
    {
        let slot = left.slot as usize;
        if slot >= self.slots.len() {
            proof {
                assert forall|i: int| 0 <= i < MAX_TURF_NEIGHBORS implies !occupied(empty_row(), i) by {}
            }
            return None;
        }
        let neighbors = self.neighbors_array(left, heat);
        match find_in_row(neighbors, right) {
            Some(index) => {
                proof {
                    assert(neighbors@[index as int] == Some(neighbor_at(neighbors@, index as int)));
                }
                match &neighbors[index] {
                    Some(neighbor) => Some(neighbor),
                    None => None,
                }
            },
            None => None,
        }
    }
}

impl PackedTopology {
    /// Rows of `after` equal those of `before`, except possibly the rows of kind `heat` of
    /// slots `l` and `r`.
    pub open spec fn rows_kept(before: Self, after: Self, heat: bool, l: int, r: int) -> bool {
        forall|a: int, k: bool|
            (k != heat || (a != l && a != r)) ==> #[trigger] after.row(a, k) == before.row(a, k)
    }

    /// Mutable access to the list of kind `heat` of `handle`'s slot.
    fn neighbors_array_mut(&mut self, handle: TurfHandle, heat: bool) -> (r: &mut [Option<TopologyNeighbor>; 6])
        requires
            (handle.slot as nat) < old(self).slot_count(),
        ensures
            r@ == old(self).row(handle.slot as int, heat),
            final(self).slots@ == old(self).slots@.update(
                handle.slot as int,
                with_row(old(self).slots@[handle.slot as int], heat, *final(r)),
            ),
            final(self).revision == old(self).revision,
            final(self).gas_edges == old(self).gas_edges,
            final(self).heat_edges == old(self).heat_edges,
    {
        let slot = &mut self.slots[handle.slot as usize];
        if heat {
            &mut slot.heat
        } else {
            &mut slot.gas
        }
    }

    /// Writes `row` as the list of kind `heat` of slot `slot`.
    fn store_row(&mut self, slot: usize, heat: bool, row: [Option<TopologyNeighbor>; 6])
        requires
            slot < old(self).slot_count(),
        ensures
            final(self).slots@ == old(self).slots@.update(slot as int, with_row(old(self).slots@[slot as int], heat, row)),
            final(self).revision == old(self).revision,
            final(self).gas_edges == old(self).gas_edges,
            final(self).heat_edges == old(self).heat_edges,
            final(self).row(slot as int, heat) == row@,
            forall|a: int, k: bool| (a != slot || k != heat) ==> #[trigger] final(self).row(a, k) == old(self).row(a, k),
    {
        let mut entry = self.slots[slot];
        if heat {
            entry.heat = row;
        } else {
            entry.gas = row;
        }
        self.slots.set(slot, entry);
    }

    /// Connects `left` and `right` in the lists of kind `heat`, leaving the counters alone.
    fn connect(&mut self, left: TurfHandle, right: TurfHandle, heat: bool) -> (r: Result<bool, TopologyError>)
        requires
            old(self).wf(),
            old(self).names_only(left, right, heat),
        ensures
            final(self).shape_wf(),
            final(self).gas_edges == old(self).gas_edges,
            final(self).heat_edges == old(self).heat_edges,
            final(self).slot_count() >= old(self).slot_count(),
            r == Ok::<bool, TopologyError>(true) ==> {
                &&& total(final(self).slots@, heat) == total(old(self).slots@, heat) + 2
                &&& total(final(self).slots@, !heat) == total(old(self).slots@, !heat)
                &&& final(self).revision == old(self).revision.wrapping_add(1)
            },
            r != Ok::<bool, TopologyError>(true) ==> {
                &&& total(final(self).slots@, heat) == total(old(self).slots@, heat)
                &&& total(final(self).slots@, !heat) == total(old(self).slots@, !heat)
                &&& final(self).revision == old(self).revision
                &&& forall|a: int, k: bool| #[trigger] final(self).row(a, k) == old(self).row(a, k)
            },
            Self::connect_outcome(*old(self), *final(self), left, right, heat, r),
            (left.slot as nat) < old(self).slot_count() && (right.slot as nat) < old(self).slot_count() ==> r
                != Err::<bool, TopologyError>(TopologyError::AllocationFailed),
    {
        if left.slot == right.slot {
            return Err(TopologyError::SelfEdge(left));
        }
        let larger = if left.slot < right.slot { right.slot } else { left.slot };
        let grown = self.ensure_slot(larger);
        if grown.is_err() {
            return Err(TopologyError::AllocationFailed);
        }
        proof {
            self.lemma_wf_parts();
            assert(self.row(left.slot as int, heat) == old(self).row(left.slot as int, heat));
        }
        if self.find_neighbor(left, right, heat).is_some() {
            return Ok(false);
        }
        let left_row = *self.neighbors_array(left, heat);
        let right_row = *self.neighbors_array(right, heat);
        proof {
            lemma_fill(left_row@);
            lemma_fill(right_row@);
        }
        if row_fill(&left_row) == MAX_TURF_NEIGHBORS {
            return Err(TopologyError::DegreeExceeded(left));
        }
        if row_fill(&right_row) == MAX_TURF_NEIGHBORS {
            return Err(TopologyError::DegreeExceeded(right));
        }
        let ghost before = *self;
        proof {
            assert(!row_links(left_row@, right.slot));
            assert(!row_links(right_row@, left.slot)) by {
                if row_links(right_row@, left.slot) {
                    let i = choose|i: int| 0 <= i < MAX_TURF_NEIGHBORS && occupied(right_row@, i) && #[trigger] neighbor_at(right_row@, i).handle.slot == left.slot;
                    let e = neighbor_at(self.row(right.slot as int, heat), i);
                    assert(self.linked_back(right.slot as int, e, heat));
                    let j = lemma_links_witness(self.row(left.slot as int, heat), right.slot, e.firelock);
                    assert(neighbor_at(left_row@, j).handle.slot == right.slot);
                }
            }
        }
        insert_sorted(self.neighbors_array_mut(left, heat), TopologyNeighbor { handle: right, firelock: false });
        let ghost middle = *self;
        insert_sorted(self.neighbors_array_mut(right, heat), TopologyNeighbor { handle: left, firelock: false });
        self.revision = self.revision.wrapping_add(1);
        proof {
            let l = left.slot as int;
            let rr = right.slot as int;
            let new_left = TopologyNeighbor { handle: right, firelock: false };
            let new_right = TopologyNeighbor { handle: left, firelock: false };
            assert forall|a: int, k: bool| (k != heat || a != l) implies #[trigger] middle.row(a, k) == before.row(a, k) by {}
            assert forall|a: int, k: bool| (k != heat || a != rr) implies #[trigger] self.row(a, k) == middle.row(a, k) by {}
            assert(self.row(l, heat) == middle.row(l, heat));
            assert(middle.row(rr, heat) == before.row(rr, heat));
            lemma_total_update(before.slots@, l, middle.slots@[l], heat);
            lemma_total_update(before.slots@, l, middle.slots@[l], !heat);
            lemma_total_update(middle.slots@, rr, self.slots@[rr], heat);
            lemma_total_update(middle.slots@, rr, self.slots@[rr], !heat);
            assert(before.slots@.update(l, middle.slots@[l]) == middle.slots@);
            assert(middle.slots@.update(rr, self.slots@[rr]) == self.slots@);
            assert(slot_row(middle.slots@[l], !heat) == slot_row(before.slots@[l], !heat));
            assert(slot_row(self.slots@[rr], !heat) == slot_row(middle.slots@[rr], !heat));
            Self::lemma_connected_shape(before, *self, left, right, heat);
        }
        Ok(true)
    }


    /// Adding a symmetric pair of entries between two slots keeps the lists well formed.
    proof fn lemma_connected_shape(before: Self, after: Self, left: TurfHandle, right: TurfHandle, heat: bool)
        requires
            before.shape_wf(),
            left.slot != right.slot,
            (left.slot as nat) < before.slot_count(),
            (right.slot as nat) < before.slot_count(),
            after.slot_count() == before.slot_count(),
            Self::rows_kept(before, after, heat, left.slot as int, right.slot as int),
            row_wf(after.row(left.slot as int, heat)),
            row_wf(after.row(right.slot as int, heat)),
            forall|n: TopologyNeighbor| #[trigger] row_has(after.row(left.slot as int, heat), n)
                == (n == TopologyNeighbor { handle: right, firelock: false } || row_has(before.row(left.slot as int, heat), n)),
            forall|n: TopologyNeighbor| #[trigger] row_has(after.row(right.slot as int, heat), n)
                == (n == TopologyNeighbor { handle: left, firelock: false } || row_has(before.row(right.slot as int, heat), n)),
        ensures
            after.shape_wf(),
    {
        let l = left.slot as int;
        let rr = right.slot as int;
        let new_left = TopologyNeighbor { handle: right, firelock: false };
        let new_right = TopologyNeighbor { handle: left, firelock: false };
        let other = !heat;
        assert forall|x: int| 0 <= x < before.slot_count() implies #[trigger] before.row(x, other) == after.row(x, other) by {}
        Self::lemma_kind_transfer(before, after, other);
        assert forall|a: int| 0 <= a < after.slot_count() implies row_wf(#[trigger] after.row(a, heat)) by {
            if a != l && a != rr {
                assert(after.row(a, heat) == before.row(a, heat));
            }
        }
        assert forall|a: int, i: int|
            0 <= a < after.slot_count() && 0 <= i < MAX_TURF_NEIGHBORS && occupied(after.row(a, heat), i)
                implies after.linked_back(a, #[trigger] neighbor_at(after.row(a, heat), i), heat) by {
            let e = neighbor_at(after.row(a, heat), i);
            lemma_has_at(after.row(a, heat), i);
            if a == l && e == new_left {
                assert(row_has(after.row(rr, heat), new_right));
                let j = choose|j: int| 0 <= j < MAX_TURF_NEIGHBORS && after.row(rr, heat)[j] == Some(new_right);
                assert(neighbor_at(after.row(rr, heat), j) == new_right);
                lemma_links_intro(after.row(rr, heat), j);
            } else if a == rr && e == new_right {
                assert(row_has(after.row(l, heat), new_left));
                let j = choose|j: int| 0 <= j < MAX_TURF_NEIGHBORS && after.row(l, heat)[j] == Some(new_left);
                assert(neighbor_at(after.row(l, heat), j) == new_left);
                lemma_links_intro(after.row(l, heat), j);
            } else {
                if a != l && a != rr {
                    assert(after.row(a, heat) == before.row(a, heat));
                }
                assert(row_has(before.row(a, heat), e));
                let j = choose|j: int| 0 <= j < MAX_TURF_NEIGHBORS && before.row(a, heat)[j] == Some(e);
                assert(neighbor_at(before.row(a, heat), j) == e);
                assert(before.linked_back(a, e, heat));
                let b = e.handle.slot as int;
                if b != l && b != rr {
                    assert(after.row(b, heat) == before.row(b, heat));
                }
                lemma_links_monotone(before.row(b, heat), after.row(b, heat));
            }
        }
    }

    /// What [`PackedTopology::connect`] did, by outcome.
    pub open spec fn connect_outcome(before: Self, after: Self, left: TurfHandle, right: TurfHandle, heat: bool, r: Result<bool, TopologyError>) -> bool {
        let lrow = before.row(left.slot as int, heat);
        let rrow = before.row(right.slot as int, heat);
        if left.slot == right.slot {
            r == Err::<bool, TopologyError>(TopologyError::SelfEdge(left))
        } else if r == Err::<bool, TopologyError>(TopologyError::AllocationFailed) {
            after.slot_count() == before.slot_count()
        } else {
            &&& (left.slot as nat) < after.slot_count()
            &&& (right.slot as nat) < after.slot_count()
            &&& if row_lists(lrow, right) {
                r == Ok::<bool, TopologyError>(false)
            } else if fill(lrow) == MAX_TURF_NEIGHBORS {
                r == Err::<bool, TopologyError>(TopologyError::DegreeExceeded(left))
            } else if fill(rrow) == MAX_TURF_NEIGHBORS {
                r == Err::<bool, TopologyError>(TopologyError::DegreeExceeded(right))
            } else {
                &&& r == Ok::<bool, TopologyError>(true)
                &&& !row_links(lrow, right.slot)
                &&& !row_links(rrow, left.slot)
                &&& Self::rows_kept(before, after, heat, left.slot as int, right.slot as int)
                &&& forall|n: TopologyNeighbor| #[trigger] row_has(after.row(left.slot as int, heat), n)
                    == (n == TopologyNeighbor { handle: right, firelock: false } || row_has(lrow, n))
                &&& forall|n: TopologyNeighbor| #[trigger] row_has(after.row(right.slot as int, heat), n)
                    == (n == TopologyNeighbor { handle: left, firelock: false } || row_has(rrow, n))
            }
        }
    }

    /// What [`PackedTopology::set_firelock`] did, by outcome: a missing gas connection is
    /// refused, an unchanged state is reported as such, and a change flips both entries.
    pub open spec fn firelock_outcome(before: Self, after: Self, left: TurfHandle, right: TurfHandle, firelock: bool, r: Result<bool, TopologyError>) -> bool {
        let lrow = before.row(left.slot as int, false);
        let rrow = before.row(right.slot as int, false);
        &&& after.slot_count() == before.slot_count()
        &&& after.edge_count(false) == before.edge_count(false)
        &&& after.edge_count(true) == before.edge_count(true)
        &&& !row_lists(lrow, right) ==> r == Err::<bool, TopologyError>(TopologyError::MissingGasEdge)
        &&& row_has(lrow, TopologyNeighbor { handle: right, firelock }) ==> r == Ok::<bool, TopologyError>(false)
        &&& row_lists(lrow, right) && !row_has(lrow, TopologyNeighbor { handle: right, firelock }) ==> r == Ok::<bool, TopologyError>(true)
        &&& r != Ok::<bool, TopologyError>(true) ==> after.revision_value() == before.revision_value()
            && forall|a: int, k: bool| #[trigger] after.row(a, k) == before.row(a, k)
        &&& r == Ok::<bool, TopologyError>(true) ==> {
            &&& after.revision_value() == before.revision_value().wrapping_add(1)
            &&& Self::rows_kept(before, after, false, left.slot as int, right.slot as int)
            &&& forall|n: TopologyNeighbor| #[trigger] row_has(after.row(left.slot as int, false), n)
                == ((row_has(lrow, n) && n.handle != right) || n == TopologyNeighbor { handle: right, firelock })
            &&& forall|n: TopologyNeighbor| #[trigger] row_has(after.row(right.slot as int, false), n)
                == ((row_has(rrow, n) && n.handle != left) || n == TopologyNeighbor { handle: left, firelock })
        }
    }

    /// Whether connecting `left` and `right` in the lists of kind `heat` adds nothing whatever
    /// the allocator does: a self edge, a pair already connected, or a full list.
    pub open spec fn connect_refused(before: Self, left: TurfHandle, right: TurfHandle, heat: bool) -> bool {
        ||| left.slot == right.slot
        ||| row_lists(before.row(left.slot as int, heat), right)
        ||| fill(before.row(left.slot as int, heat)) == MAX_TURF_NEIGHBORS
        ||| fill(before.row(right.slot as int, heat)) == MAX_TURF_NEIGHBORS
    }

    /// What [`PackedTopology::disconnect_gas`] or [`PackedTopology::disconnect_heat`] did to
    /// the lists, by outcome.
    pub open spec fn disconnect_outcome(before: Self, after: Self, left: TurfHandle, right: TurfHandle, heat: bool, r: bool) -> bool {
        &&& r == row_lists(before.row(left.slot as int, heat), right)
        &&& after.slot_count() == before.slot_count()
        &&& r ==> {
            &&& Self::rows_kept(before, after, heat, left.slot as int, right.slot as int)
            &&& forall|n: TopologyNeighbor| #[trigger] row_has(after.row(left.slot as int, heat), n)
                == (row_has(before.row(left.slot as int, heat), n) && n.handle != right)
            &&& forall|n: TopologyNeighbor| #[trigger] row_has(after.row(right.slot as int, heat), n)
                == (row_has(before.row(right.slot as int, heat), n) && n.handle != left)
        }
        &&& !r ==> forall|a: int, k: bool| #[trigger] after.row(a, k) == before.row(a, k)
    }

    /// What [`PackedTopology::remove_slot`] or [`PackedTopology::remove_turf`] did to the
    /// lists of slot `slot`'s partners, by outcome.
    pub open spec fn remove_outcome(before: Self, after: Self, slot: u32, r: bool) -> bool {
        &&& after.slot_count() == before.slot_count()
        &&& r == ((slot as nat) < before.slot_count() && (fill(before.row(slot as int, false)) > 0
            || fill(before.row(slot as int, true)) > 0))
        &&& !r ==> forall|a: int, k: bool| #[trigger] after.row(a, k) == before.row(a, k)
        &&& r ==> {
            &&& forall|k: bool| #[trigger] after.row(slot as int, k) == empty_row()
            &&& forall|a: int, k: bool, n: TopologyNeighbor| a != slot ==> #[trigger] row_has(after.row(a, k), n)
                == (row_has(before.row(a, k), n) && n.handle.slot != slot)
        }
    }
}

/// In a well-formed list at most one position names a given slot.
pub proof fn lemma_unique_slot(row: Seq<Option<TopologyNeighbor>>, i: int, j: int)
    requires
        row_wf(row),
        0 <= i < MAX_TURF_NEIGHBORS,
        0 <= j < MAX_TURF_NEIGHBORS,
        occupied(row, i),
        occupied(row, j),
        neighbor_at(row, i).handle.slot == neighbor_at(row, j).handle.slot,
    ensures
        i == j,
{
    assert(row[i] == row[i] && row[j] == row[j]);
}

impl PackedTopology {
    /// Connects `left` and `right` for gas exchange. True when the connection is new.
    pub fn connect_gas(&mut self, left: TurfHandle, right: TurfHandle) -> (r: Result<bool, TopologyError>)
        requires
            old(self).wf(),
            old(self).names_only(left, right, false),
            old(self).edge_count(false) < usize::MAX || Self::connect_refused(*old(self), left, right, false),
        ensures
            final(self).wf(),
            Self::connect_outcome(*old(self), *final(self), left, right, false, r),
            (left.slot as nat) < old(self).slot_count() && (right.slot as nat) < old(self).slot_count() ==> r
                != Err::<bool, TopologyError>(TopologyError::AllocationFailed),
            final(self).edge_count(true) == old(self).edge_count(true),
            r == Ok::<bool, TopologyError>(true) ==> final(self).edge_count(false) == old(self).edge_count(false) + 1
                && final(self).revision_value() == old(self).revision_value().wrapping_add(1),
            r != Ok::<bool, TopologyError>(true) ==> final(self).edge_count(false) == old(self).edge_count(false)
                && final(self).revision_value() == old(self).revision_value()
                && forall|a: int, k: bool| #[trigger] final(self).row(a, k) == old(self).row(a, k),
    {
        let changed = self.connect(left, right, false);
        let ghost connected = *self;
        if let Ok(true) = changed {
            self.gas_edges += 1;
        }
        proof {
            Self::lemma_same_rows(connected, *self);
        }
        changed
    }

    /// Connects `left` and `right` for heat conduction. True when the connection is new.
    pub fn connect_heat(&mut self, left: TurfHandle, right: TurfHandle) -> (r: Result<bool, TopologyError>)
        requires
            old(self).wf(),
            old(self).names_only(left, right, true),
            old(self).edge_count(true) < usize::MAX || Self::connect_refused(*old(self), left, right, true),
        ensures
            final(self).wf(),
            Self::connect_outcome(*old(self), *final(self), left, right, true, r),
            (left.slot as nat) < old(self).slot_count() && (right.slot as nat) < old(self).slot_count() ==> r
                != Err::<bool, TopologyError>(TopologyError::AllocationFailed),
            final(self).edge_count(false) == old(self).edge_count(false),
            r == Ok::<bool, TopologyError>(true) ==> final(self).edge_count(true) == old(self).edge_count(true) + 1
                && final(self).revision_value() == old(self).revision_value().wrapping_add(1),
            r != Ok::<bool, TopologyError>(true) ==> final(self).edge_count(true) == old(self).edge_count(true)
                && final(self).revision_value() == old(self).revision_value()
                && forall|a: int, k: bool| #[trigger] final(self).row(a, k) == old(self).row(a, k),
    {
        let changed = self.connect(left, right, true);
        let ghost connected = *self;
        if let Ok(true) = changed {
            self.heat_edges += 1;
        }
        proof {
            Self::lemma_same_rows(connected, *self);
        }
        changed
    }

    /// Removing a symmetric pair of entries keeps the lists well formed.
    proof fn lemma_disconnected_shape(before: Self, after: Self, left: TurfHandle, right: TurfHandle, heat: bool)
        requires
            before.shape_wf(),
            (left.slot as nat) < before.slot_count(),
            (right.slot as nat) < before.slot_count(),
            left.slot != right.slot,
            row_lists(before.row(left.slot as int, heat), right),
            row_lists(before.row(right.slot as int, heat), left),
            after.slot_count() == before.slot_count(),
            Self::rows_kept(before, after, heat, left.slot as int, right.slot as int),
            row_wf(after.row(left.slot as int, heat)),
            row_wf(after.row(right.slot as int, heat)),
            forall|n: TopologyNeighbor| #[trigger] row_has(after.row(left.slot as int, heat), n)
                == (row_has(before.row(left.slot as int, heat), n) && n.handle != right),
            forall|n: TopologyNeighbor| #[trigger] row_has(after.row(right.slot as int, heat), n)
                == (row_has(before.row(right.slot as int, heat), n) && n.handle != left),
        ensures
            after.shape_wf(),
    {
        let l = left.slot as int;
        let rr = right.slot as int;
        let other = !heat;
        assert forall|x: int| 0 <= x < before.slot_count() implies #[trigger] before.row(x, other) == after.row(x, other) by {}
        Self::lemma_kind_transfer(before, after, other);
        assert forall|a: int| 0 <= a < after.slot_count() implies row_wf(#[trigger] after.row(a, heat)) by {
            if a != l && a != rr {
                assert(after.row(a, heat) == before.row(a, heat));
            }
        }
        assert forall|a: int, i: int|
            0 <= a < after.slot_count() && 0 <= i < MAX_TURF_NEIGHBORS && occupied(after.row(a, heat), i)
                implies after.linked_back(a, #[trigger] neighbor_at(after.row(a, heat), i), heat) by {
            Self::lemma_disconnected_entry(before, after, left, right, heat, a, i);
        }
    }

    /// One entry left after a disconnection is still listed back.
    proof fn lemma_disconnected_entry(before: Self, after: Self, left: TurfHandle, right: TurfHandle, heat: bool, a: int, i: int)
        requires
            before.shape_wf(),
            (left.slot as nat) < before.slot_count(),
            (right.slot as nat) < before.slot_count(),
            left.slot != right.slot,
            row_lists(before.row(left.slot as int, heat), right),
            row_lists(before.row(right.slot as int, heat), left),
            after.slot_count() == before.slot_count(),
            Self::rows_kept(before, after, heat, left.slot as int, right.slot as int),
            forall|n: TopologyNeighbor| #[trigger] row_has(after.row(left.slot as int, heat), n)
                == (row_has(before.row(left.slot as int, heat), n) && n.handle != right),
            forall|n: TopologyNeighbor| #[trigger] row_has(after.row(right.slot as int, heat), n)
                == (row_has(before.row(right.slot as int, heat), n) && n.handle != left),
            0 <= a < after.slot_count(),
            0 <= i < MAX_TURF_NEIGHBORS,
            occupied(after.row(a, heat), i),
        ensures
            after.linked_back(a, neighbor_at(after.row(a, heat), i), heat),
    {
        let l = left.slot as int;
        let rr = right.slot as int;
        let x = neighbor_at(after.row(a, heat), i);
        lemma_has_at(after.row(a, heat), i);
        if a != l && a != rr {
            assert(after.row(a, heat) == before.row(a, heat));
        }
        assert(row_has(before.row(a, heat), x));
        let p = choose|p: int| 0 <= p < MAX_TURF_NEIGHBORS && before.row(a, heat)[p] == Some(x);
        assert(neighbor_at(before.row(a, heat), p) == x);
        assert(before.linked_back(a, x, heat));
        let b = x.handle.slot as int;
        let j = lemma_links_witness(before.row(b, heat), a as u32, x.firelock);
        let y = neighbor_at(before.row(b, heat), j);
        lemma_has_at(before.row(b, heat), j);
        if b == l && y.handle == right {
            // Then `a` is right's slot and `x` names left's slot, so `x` is `left`.
            let q = choose|q: int| 0 <= q < MAX_TURF_NEIGHBORS && occupied(before.row(rr, heat), q) && #[trigger] neighbor_at(before.row(rr, heat), q).handle == left;
            lemma_unique_slot(before.row(rr, heat), p, q);
            assert(false);
        } else if b == rr && y.handle == left {
            let q = choose|q: int| 0 <= q < MAX_TURF_NEIGHBORS && occupied(before.row(l, heat), q) && #[trigger] neighbor_at(before.row(l, heat), q).handle == right;
            lemma_unique_slot(before.row(l, heat), p, q);
            assert(false);
        } else {
            if b != l && b != rr {
                assert(after.row(b, heat) == before.row(b, heat));
            }
            assert(row_has(after.row(b, heat), y));
            let k = choose|k: int| 0 <= k < MAX_TURF_NEIGHBORS && after.row(b, heat)[k] == Some(y);
            assert(neighbor_at(after.row(b, heat), k) == y);
            lemma_links_intro(after.row(b, heat), k);
        }
    }

    /// Disconnects `left` and `right` in the lists of kind `heat`, leaving the counters alone.
    fn disconnect(&mut self, left: TurfHandle, right: TurfHandle, heat: bool) -> (r: bool)
        requires
            old(self).wf(),
            old(self).lists_back(left, right, heat),
        ensures
            final(self).shape_wf(),
            final(self).gas_edges == old(self).gas_edges,
            final(self).heat_edges == old(self).heat_edges,
            final(self).slot_count() == old(self).slot_count(),
            r == row_lists(old(self).row(left.slot as int, heat), right),
            r ==> {
                &&& total(final(self).slots@, heat) + 2 == total(old(self).slots@, heat)
                &&& total(final(self).slots@, !heat) == total(old(self).slots@, !heat)
                &&& final(self).revision == old(self).revision.wrapping_add(1)
                &&& Self::rows_kept(*old(self), *final(self), heat, left.slot as int, right.slot as int)
                &&& forall|n: TopologyNeighbor| #[trigger] row_has(final(self).row(left.slot as int, heat), n)
                    == (row_has(old(self).row(left.slot as int, heat), n) && n.handle != right)
                &&& forall|n: TopologyNeighbor| #[trigger] row_has(final(self).row(right.slot as int, heat), n)
                    == (row_has(old(self).row(right.slot as int, heat), n) && n.handle != left)
            },
            !r ==> {
                &&& total(final(self).slots@, heat) == total(old(self).slots@, heat)
                &&& total(final(self).slots@, !heat) == total(old(self).slots@, !heat)
                &&& final(self).revision == old(self).revision
                &&& forall|a: int, k: bool| #[trigger] final(self).row(a, k) == old(self).row(a, k)
            },
    {
        let found = self.find_neighbor(left, right, heat);
        if found.is_none() {
            return false;
        }
        let ghost l = left.slot as int;
        let ghost rr = right.slot as int;
        proof {
            let i = choose|i: int| 0 <= i < MAX_TURF_NEIGHBORS && occupied(self.row(l, heat), i) && #[trigger] neighbor_at(self.row(l, heat), i).handle == right;
            let e = neighbor_at(self.row(l, heat), i);
            assert(self.linked_back(l, e, heat));
            assert(row_lists(self.row(rr, heat), left));
        }
        let ghost before = *self;
        remove_neighbor(self.neighbors_array_mut(left, heat), right);
        let ghost middle = *self;
        remove_neighbor(self.neighbors_array_mut(right, heat), left);
        self.revision = self.revision.wrapping_add(1);
        proof {
            assert forall|a: int, k: bool| (k != heat || a != l) implies #[trigger] middle.row(a, k) == before.row(a, k) by {}
            assert forall|a: int, k: bool| (k != heat || a != rr) implies #[trigger] self.row(a, k) == middle.row(a, k) by {}
            assert(self.row(l, heat) == middle.row(l, heat));
            assert(middle.row(rr, heat) == before.row(rr, heat));
            lemma_total_update(before.slots@, l, middle.slots@[l], heat);
            lemma_total_update(before.slots@, l, middle.slots@[l], !heat);
            lemma_total_update(middle.slots@, rr, self.slots@[rr], heat);
            lemma_total_update(middle.slots@, rr, self.slots@[rr], !heat);
            assert(before.slots@.update(l, middle.slots@[l]) == middle.slots@);
            assert(middle.slots@.update(rr, self.slots@[rr]) == self.slots@);
            assert(slot_row(middle.slots@[l], !heat) == slot_row(before.slots@[l], !heat));
            assert(slot_row(self.slots@[rr], !heat) == slot_row(middle.slots@[rr], !heat));
            Self::lemma_disconnected_shape(before, *self, left, right, heat);
        }
        true
    }

    /// Disconnects `left` and `right` for gas exchange. True when they were connected.
    pub fn disconnect_gas(&mut self, left: TurfHandle, right: TurfHandle) -> (r: bool)
        requires
            old(self).wf(),
            old(self).lists_back(left, right, false),
        ensures
            final(self).wf(),
            Self::disconnect_outcome(*old(self), *final(self), left, right, false, r),
            final(self).edge_count(true) == old(self).edge_count(true),
            r ==> final(self).edge_count(false) + 1 == old(self).edge_count(false)
                && final(self).revision_value() == old(self).revision_value().wrapping_add(1),
            !r ==> final(self).edge_count(false) == old(self).edge_count(false)
                && final(self).revision_value() == old(self).revision_value(),
    {
        let changed = self.disconnect(left, right, false);
        let ghost disconnected = *self;
        if changed {
            self.gas_edges -= 1;
        }
        proof {
            Self::lemma_same_rows(disconnected, *self);
        }
        changed
    }

    /// Disconnects `left` and `right` for heat conduction. True when they were connected.
    pub fn disconnect_heat(&mut self, left: TurfHandle, right: TurfHandle) -> (r: bool)
        requires
            old(self).wf(),
            old(self).lists_back(left, right, true),
        ensures
            final(self).wf(),
            Self::disconnect_outcome(*old(self), *final(self), left, right, true, r),
            final(self).edge_count(false) == old(self).edge_count(false),
            r ==> final(self).edge_count(true) + 1 == old(self).edge_count(true)
                && final(self).revision_value() == old(self).revision_value().wrapping_add(1),
            !r ==> final(self).edge_count(true) == old(self).edge_count(true)
                && final(self).revision_value() == old(self).revision_value(),
    {
        let changed = self.disconnect(left, right, true);
        let ghost disconnected = *self;
        if changed {
            self.heat_edges -= 1;
        }
        proof {
            Self::lemma_same_rows(disconnected, *self);
        }
        changed
    }
}

impl PackedTopology {
    /// After the firelock of a connected pair flips on both sides, the lists stay well formed.
    proof fn lemma_firelock_shape(before: Self, after: Self, left: TurfHandle, right: TurfHandle, firelock: bool, li: int, ri: int)
        requires
            before.shape_wf(),
            left.slot != right.slot,
            (left.slot as nat) < before.slot_count(),
            (right.slot as nat) < before.slot_count(),
            0 <= li < MAX_TURF_NEIGHBORS,
            0 <= ri < MAX_TURF_NEIGHBORS,
            occupied(before.row(left.slot as int, false), li),
            neighbor_at(before.row(left.slot as int, false), li).handle == right,
            occupied(before.row(right.slot as int, false), ri),
            neighbor_at(before.row(right.slot as int, false), ri).handle == left,
            after.slot_count() == before.slot_count(),
            Self::rows_kept(before, after, false, left.slot as int, right.slot as int),
            after.row(left.slot as int, false) == before.row(left.slot as int, false).update(li, Some(TopologyNeighbor { handle: right, firelock })),
            after.row(right.slot as int, false) == before.row(right.slot as int, false).update(ri, Some(TopologyNeighbor { handle: left, firelock })),
        ensures
            after.shape_wf(),
    {
        let l = left.slot as int;
        let rr = right.slot as int;
        assert forall|x: int| 0 <= x < before.slot_count() implies #[trigger] before.row(x, true) == after.row(x, true) by {}
        Self::lemma_kind_transfer(before, after, true);
        assert forall|a: int| 0 <= a < after.slot_count() implies row_wf(#[trigger] after.row(a, false)) by {
            let row = after.row(a, false);
            if a == l || a == rr {
                let old_row = before.row(a, false);
                assert(row_wf(old_row));
                assert forall|i: int, j: int|
                    #![trigger row[i], row[j]]
                    0 <= i < j < MAX_TURF_NEIGHBORS && occupied(row, j) implies occupied(row, i) && neighbor_at(row, i).handle.slot < neighbor_at(row, j).handle.slot by {
                    assert(old_row[i] == old_row[i] && old_row[j] == old_row[j]);
                }
            } else {
                assert(row == before.row(a, false));
            }
        }
        assert forall|a: int, i: int|
            0 <= a < after.slot_count() && 0 <= i < MAX_TURF_NEIGHBORS && occupied(after.row(a, false), i)
                implies after.linked_back(a, #[trigger] neighbor_at(after.row(a, false), i), false) by {
            Self::lemma_firelock_entry(before, after, left, right, firelock, li, ri, a, i);
        }
    }

    /// One entry after a firelock flip is still listed back.
    proof fn lemma_firelock_entry(before: Self, after: Self, left: TurfHandle, right: TurfHandle, firelock: bool, li: int, ri: int, a: int, i: int)
        requires
            before.shape_wf(),
            left.slot != right.slot,
            (left.slot as nat) < before.slot_count(),
            (right.slot as nat) < before.slot_count(),
            0 <= li < MAX_TURF_NEIGHBORS,
            0 <= ri < MAX_TURF_NEIGHBORS,
            occupied(before.row(left.slot as int, false), li),
            neighbor_at(before.row(left.slot as int, false), li).handle == right,
            occupied(before.row(right.slot as int, false), ri),
            neighbor_at(before.row(right.slot as int, false), ri).handle == left,
            after.slot_count() == before.slot_count(),
            Self::rows_kept(before, after, false, left.slot as int, right.slot as int),
            after.row(left.slot as int, false) == before.row(left.slot as int, false).update(li, Some(TopologyNeighbor { handle: right, firelock })),
            after.row(right.slot as int, false) == before.row(right.slot as int, false).update(ri, Some(TopologyNeighbor { handle: left, firelock })),
            0 <= a < after.slot_count(),
            0 <= i < MAX_TURF_NEIGHBORS,
            occupied(after.row(a, false), i),
        ensures
            after.linked_back(a, neighbor_at(after.row(a, false), i), false),
    {
        let l = left.slot as int;
        let rr = right.slot as int;
        let x = neighbor_at(after.row(a, false), i);
        if a == l && i == li {
            lemma_links_intro(after.row(rr, false), ri);
        } else if a == rr && i == ri {
            lemma_links_intro(after.row(l, false), li);
        } else {
            assert(after.row(a, false)[i] == before.row(a, false)[i]);
            assert(before.linked_back(a, x, false));
            let b = x.handle.slot as int;
            let j = lemma_links_witness(before.row(b, false), a as u32, x.firelock);
            if b == l && j == li {
                // `x` names left's slot and lives in right's list, so it is the flipped entry.
                lemma_unique_slot(before.row(rr, false), i, ri);
                assert(false);
            } else if b == rr && j == ri {
                lemma_unique_slot(before.row(l, false), i, li);
                assert(false);
            } else {
                assert(after.row(b, false)[j] == before.row(b, false)[j]);
                lemma_links_intro(after.row(b, false), j);
            }
        }
    }

    /// Sets the firelock state of the gas connection between `left` and `right` on both
    /// sides. True when the state changed.
    #[verifier::rlimit(40)]
    pub fn set_firelock(&mut self, left: TurfHandle, right: TurfHandle, firelock: bool) -> (r: Result<bool, TopologyError>)
        requires
            old(self).wf(),
            !row_has(old(self).row(left.slot as int, false), TopologyNeighbor { handle: right, firelock })
                ==> old(self).lists_back(left, right, false),
        ensures
            final(self).wf(),
            Self::firelock_outcome(*old(self), *final(self), left, right, firelock, r),
    {
        if left.slot as usize >= self.slots.len() {
            proof {
                assert forall|i: int| 0 <= i < MAX_TURF_NEIGHBORS implies !occupied(empty_row(), i) by {}
            }
            return Err(TopologyError::MissingGasEdge);
        }
        let mut left_row = *self.neighbors_array(left, false);
        let left_index = match find_in_row(&left_row, right) {
            Some(index) => index,
            None => {
                proof {
                    assert forall|n: TopologyNeighbor| !row_has(left_row@, n) || n.handle != right by {
                        if row_has(left_row@, n) {
                            let i = choose|i: int| 0 <= i < MAX_TURF_NEIGHBORS && left_row@[i] == Some(n);
                            assert(neighbor_at(left_row@, i) == n);
                        }
                    }
                }
                return Err(TopologyError::MissingGasEdge);
            },
        };
        let current = left_row[left_index].unwrap();
        let ghost l = left.slot as int;
        let ghost rr = right.slot as int;
        proof {
            assert(row_wf(self.row(l, false)));
            assert forall|n: TopologyNeighbor| #[trigger] row_has(left_row@, n) && n.handle == right implies n == current by {
                let i = choose|i: int| 0 <= i < MAX_TURF_NEIGHBORS && left_row@[i] == Some(n);
                lemma_unique_slot(left_row@, i, left_index as int);
            }
            lemma_has_at(left_row@, left_index as int);
        }
        if current.firelock == firelock {
            return Ok(false);
        }
        proof {
            assert(self.linked_back(l, current, false));
        }
        proof {
            assert(!row_has(self.row(l, false), TopologyNeighbor { handle: right, firelock }));
            assert(row_lists(self.row(rr, false), left));
        }
        let mut right_row = *self.neighbors_array(right, false);
        let right_index = match find_in_row(&right_row, left) {
            Some(index) => index,
            None => {
                proof {
                    assert(false);
                }
                return Err(TopologyError::MissingGasEdge);
            },
        };
        let ghost before = *self;
        left_row[left_index] = Some(TopologyNeighbor { handle: right, firelock });
        right_row[right_index] = Some(TopologyNeighbor { handle: left, firelock });
        self.store_row(left.slot as usize, false, left_row);
        let ghost middle = *self;
        self.store_row(right.slot as usize, false, right_row);
        self.revision = self.revision.wrapping_add(1);
        proof {
            let old_l = before.row(l, false);
            let old_r = before.row(rr, false);
            assert(self.row(l, false) == middle.row(l, false));
            assert(self.row(rr, false) == old_r.update(right_index as int, Some(TopologyNeighbor { handle: left, firelock })));
            assert forall|a: int, k: bool| (k != false || (a != l && a != rr)) implies #[trigger] self.row(a, k) == before.row(a, k) by {
                assert(middle.row(a, k) == before.row(a, k));
            }
            Self::lemma_firelock_shape(before, *self, left, right, firelock, left_index as int, right_index as int);
            lemma_total_update(before.slots@, l, middle.slots@[l], false);
            lemma_total_update(before.slots@, l, middle.slots@[l], true);
            lemma_total_update(middle.slots@, rr, self.slots@[rr], false);
            lemma_total_update(middle.slots@, rr, self.slots@[rr], true);
            assert(before.slots@.update(l, middle.slots@[l]) == middle.slots@);
            assert(middle.slots@.update(rr, self.slots@[rr]) == self.slots@);
            assert(fill(self.row(l, false)) == fill(old_l));
            assert(fill(self.row(rr, false)) == fill(old_r));
            assert(slot_row(middle.slots@[l], true) == slot_row(before.slots@[l], true));
            assert(slot_row(self.slots@[rr], true) == slot_row(middle.slots@[rr], true));
            assert forall|n: TopologyNeighbor| #[trigger] row_has(self.row(l, false), n)
                == ((row_has(old_l, n) && n.handle != right) || n == TopologyNeighbor { handle: right, firelock }) by {
                let row = self.row(l, false);
                if row_has(row, n) {
                    let i = choose|i: int| 0 <= i < MAX_TURF_NEIGHBORS && row[i] == Some(n);
                    if i != left_index {
                        assert(old_l[i] == Some(n));
                        if n.handle == right {
                            lemma_unique_slot(old_l, i, left_index as int);
                        }
                    }
                }
                if row_has(old_l, n) && n.handle != right {
                    let i = choose|i: int| 0 <= i < MAX_TURF_NEIGHBORS && old_l[i] == Some(n);
                    assert(row[i] == Some(n));
                }
                if n == (TopologyNeighbor { handle: right, firelock }) {
                    assert(row[left_index as int] == Some(n));
                }
            }
            assert forall|n: TopologyNeighbor| #[trigger] row_has(self.row(rr, false), n)
                == ((row_has(old_r, n) && n.handle != left) || n == TopologyNeighbor { handle: left, firelock }) by {
                let row = self.row(rr, false);
                if row_has(row, n) {
                    let i = choose|i: int| 0 <= i < MAX_TURF_NEIGHBORS && row[i] == Some(n);
                    if i != right_index {
                        assert(old_r[i] == Some(n));
                        if n.handle == left {
                            lemma_unique_slot(old_r, i, right_index as int);
                        }
                    }
                }
                if row_has(old_r, n) && n.handle != left {
                    let i = choose|i: int| 0 <= i < MAX_TURF_NEIGHBORS && old_r[i] == Some(n);
                    assert(row[i] == Some(n));
                }
                if n == (TopologyNeighbor { handle: left, firelock }) {
                    assert(row[right_index as int] == Some(n));
                }
            }
        }
        Ok(true)
    }
}

impl PackedTopology {
    /// Whether slot `a` is listed by `partners` at a position below `upto`.
    pub open spec fn listed_before(partners: Seq<Option<TopologyNeighbor>>, upto: int, a: int) -> bool {
        exists|p: int| 0 <= p < upto && occupied(partners, p) && #[trigger] neighbor_at(partners, p).handle.slot == a
    }

    /// Removes the back-references to `slot` from the lists of kind `heat` of the partners
    /// `partners` that `slot` listed before it was cleared.
    fn detach(&mut self, slot: u32, partners: &[Option<TopologyNeighbor>; 6], heat: bool, Ghost(origin): Ghost<Self>)
        requires
            origin.shape_wf(),
            (slot as nat) < origin.slot_count(),
            partners@ == origin.row(slot as int, heat),
            old(self).slot_count() == origin.slot_count(),
            old(self).row(slot as int, heat) == empty_row(),
            forall|a: int| a != slot ==> #[trigger] old(self).row(a, heat) == origin.row(a, heat),
            total(old(self).slots@, heat) + fill(partners@) == total(origin.slots@, heat),
        ensures
            final(self).slot_count() == old(self).slot_count(),
            final(self).row(slot as int, heat) == empty_row(),
            forall|a: int, k: bool| k != heat ==> #[trigger] final(self).row(a, k) == old(self).row(a, k),
            total(final(self).slots@, !heat) == total(old(self).slots@, !heat),
            final(self).gas_edges == old(self).gas_edges,
            final(self).heat_edges == old(self).heat_edges,
            final(self).revision == old(self).revision,
            forall|a: int| 0 <= a < final(self).slot_count() ==> row_wf(#[trigger] final(self).row(a, heat)),
            forall|a: int, n: TopologyNeighbor| a != slot ==> #[trigger] row_has(final(self).row(a, heat), n)
                == (row_has(origin.row(a, heat), n) && n.handle.slot != slot),
            total(final(self).slots@, heat) + 2 * fill(partners@) == total(origin.slots@, heat),
    {
        proof {
            lemma_fill(partners@);
        }
        let ghost start = *self;
        let ghost count = fill(partners@);
        let mut index: usize = 0;
        while index < MAX_TURF_NEIGHBORS
            invariant
                index <= MAX_TURF_NEIGHBORS,
                origin.shape_wf(),
                (slot as nat) < origin.slot_count(),
                partners@ == origin.row(slot as int, heat),
                count == fill(partners@),
                forall|i: int| 0 <= i < MAX_TURF_NEIGHBORS ==> (occupied(partners@, i) <==> i < count),
                self.slot_count() == origin.slot_count(),
                self.row(slot as int, heat) == empty_row(),
                forall|a: int, k: bool| k != heat ==> #[trigger] self.row(a, k) == start.row(a, k),
                total(self.slots@, !heat) == total(start.slots@, !heat),
                self.gas_edges == start.gas_edges,
                self.heat_edges == start.heat_edges,
                self.revision == start.revision,
                forall|a: int| 0 <= a < self.slot_count() ==> row_wf(#[trigger] self.row(a, heat)),
                forall|a: int, n: TopologyNeighbor| a != slot ==> #[trigger] row_has(self.row(a, heat), n)
                    == (row_has(origin.row(a, heat), n) && !(n.handle.slot == slot && Self::listed_before(partners@, index as int, a))),
                forall|a: int| a != slot && !Self::listed_before(partners@, index as int, a) ==> #[trigger] self.row(a, heat) == origin.row(a, heat),
                total(self.slots@, heat) + fill(partners@) + (if index < count { index as nat } else { count }) == total(origin.slots@, heat),
            decreases MAX_TURF_NEIGHBORS - index,
        {
            let ghost before = *self;
            match partners[index] {
                Some(neighbor) => {
                    let partner = neighbor.handle.slot as usize;
                    proof {
                        assert(occupied(partners@, index as int));
                        assert(origin.linked_back(slot as int, neighbor, heat));
                        assert(partner != slot as usize);
                        assert(!Self::listed_before(partners@, index as int, partner as int)) by {
                            if Self::listed_before(partners@, index as int, partner as int) {
                                let p = choose|p: int| 0 <= p < index && occupied(partners@, p) && #[trigger] neighbor_at(partners@, p).handle.slot == partner as int;
                                lemma_unique_slot(partners@, p, index as int);
                            }
                        }
                        assert(self.row(partner as int, heat) == origin.row(partner as int, heat));
                        let j = lemma_links_witness(origin.row(partner as int, heat), slot, neighbor.firelock);
                        assert(row_links(self.row(partner as int, heat), slot));
                    }
                    if partner < self.slots.len() {
                        remove_neighbor_slot(self.neighbors_array_mut(neighbor.handle, heat), slot);
                    }
                    proof {
                        let p = partner as int;
                        assert forall|a: int, k: bool| (k != heat || a != p) implies #[trigger] self.row(a, k) == before.row(a, k) by {}
                        lemma_total_update(before.slots@, p, self.slots@[p], heat);
                        lemma_total_update(before.slots@, p, self.slots@[p], !heat);
                        assert(before.slots@.update(p, self.slots@[p]) == self.slots@);
                        assert(slot_row(self.slots@[p], !heat) == slot_row(before.slots@[p], !heat));
                        assert(slot_row(self.slots@[p], heat) == self.row(p, heat));
                        assert(slot_row(before.slots@[p], heat) == before.row(p, heat));
                        assert forall|a: int| #[trigger] Self::listed_before(partners@, index as int + 1, a) == (Self::listed_before(partners@, index as int, a) || a == p) by {
                            if a == p {
                                assert(neighbor_at(partners@, index as int).handle.slot == a);
                            }
                            if Self::listed_before(partners@, index as int + 1, a) && !Self::listed_before(partners@, index as int, a) {
                                let q = choose|q: int| 0 <= q < index + 1 && occupied(partners@, q) && #[trigger] neighbor_at(partners@, q).handle.slot == a;
                                assert(q == index);
                            }
                        }
                    }
                },
                None => {
                    proof {
                        assert forall|a: int| #[trigger] Self::listed_before(partners@, index as int + 1, a) == Self::listed_before(partners@, index as int, a) by {
                            if Self::listed_before(partners@, index as int + 1, a) {
                                let q = choose|q: int| 0 <= q < index + 1 && occupied(partners@, q) && #[trigger] neighbor_at(partners@, q).handle.slot == a;
                                assert(q != index);
                            }
                        }
                    }
                },
            }
            index += 1;
        }
        proof {
            assert forall|a: int, n: TopologyNeighbor| a != slot implies #[trigger] row_has(self.row(a, heat), n)
                == (row_has(origin.row(a, heat), n) && n.handle.slot != slot) by {
                if row_has(origin.row(a, heat), n) && n.handle.slot == slot && !Self::listed_before(partners@, MAX_TURF_NEIGHBORS as int, a) {
                    let i = choose|i: int| 0 <= i < MAX_TURF_NEIGHBORS && origin.row(a, heat)[i] == Some(n);
                    assert(neighbor_at(origin.row(a, heat), i) == n);
                    assert(0 <= a < origin.slot_count()) by {
                        if !(0 <= a < origin.slot_count()) {
                            assert(origin.row(a, heat) == empty_row());
                        }
                    }
                    assert(origin.linked_back(a, n, heat));
                    let j = lemma_links_witness(origin.row(slot as int, heat), a as u32, n.firelock);
                    assert(neighbor_at(partners@, j).handle.slot == a);
                }
            }
        }
    }
}

impl PackedTopology {
    /// After every reference to `slot` is dropped from the lists of kind `heat`, they stay
    /// well formed.
    proof fn lemma_removed_kind(origin: Self, after: Self, slot: u32, heat: bool)
        requires
            origin.kind_wf(heat),
            origin.slot_count() <= u32::MAX as nat + 1,
            after.slot_count() == origin.slot_count(),
            after.row(slot as int, heat) == empty_row(),
            forall|a: int| 0 <= a < after.slot_count() ==> row_wf(#[trigger] after.row(a, heat)),
            forall|a: int, n: TopologyNeighbor| a != slot ==> #[trigger] row_has(after.row(a, heat), n)
                == (row_has(origin.row(a, heat), n) && n.handle.slot != slot),
        ensures
            after.kind_wf(heat),
    {
        assert forall|a: int, i: int|
            0 <= a < after.slot_count() && 0 <= i < MAX_TURF_NEIGHBORS && occupied(after.row(a, heat), i)
                implies after.linked_back(a, #[trigger] neighbor_at(after.row(a, heat), i), heat) by {
            let x = neighbor_at(after.row(a, heat), i);
            assert(a != slot);
            lemma_has_at(after.row(a, heat), i);
            assert(row_has(origin.row(a, heat), x));
            assert(x.handle.slot != slot);
            let p = choose|p: int| 0 <= p < MAX_TURF_NEIGHBORS && origin.row(a, heat)[p] == Some(x);
            assert(neighbor_at(origin.row(a, heat), p) == x);
            assert(origin.linked_back(a, x, heat));
            let b = x.handle.slot as int;
            let j = lemma_links_witness(origin.row(b, heat), a as u32, x.firelock);
            let y = neighbor_at(origin.row(b, heat), j);
            lemma_has_at(origin.row(b, heat), j);
            assert(row_has(after.row(b, heat), y));
            let k = choose|k: int| 0 <= k < MAX_TURF_NEIGHBORS && after.row(b, heat)[k] == Some(y);
            assert(neighbor_at(after.row(b, heat), k) == y);
            lemma_links_intro(after.row(b, heat), k);
        }
    }

    /// Clears slot `slot` and drops every reference to it. True when the slot listed any
    /// neighbor.
    pub fn remove_slot(&mut self, slot: u32) -> (r: bool)
        requires
            old(self).wf(),
        ensures
            final(self).wf(),
            Self::remove_outcome(*old(self), *final(self), slot, r),
            !r ==> {
                &&& final(self).edge_count(false) == old(self).edge_count(false)
                &&& final(self).edge_count(true) == old(self).edge_count(true)
                &&& final(self).revision_value() == old(self).revision_value()
            },
            r ==> {
                &&& final(self).revision_value() == old(self).revision_value().wrapping_add(1)
                &&& final(self).edge_count(false) + fill(old(self).row(slot as int, false)) == old(self).edge_count(false)
                &&& final(self).edge_count(true) + fill(old(self).row(slot as int, true)) == old(self).edge_count(true)
            },
    {
        let index = slot as usize;
        if index >= self.slots.len() {
            return false;
        }
        let entry = self.slots[index];
        let gas_neighbors = entry.gas;
        let heat_neighbors = entry.heat;
        proof {
            assert(gas_neighbors@ == self.row(index as int, false));
            assert(heat_neighbors@ == self.row(index as int, true));
        }
        let removed_gas = row_fill(&gas_neighbors);
        let removed_heat = row_fill(&heat_neighbors);
        if removed_gas == 0 && removed_heat == 0 {
            return false;
        }
        let ghost origin = *self;
        let empty = TopologySlot::empty();
        self.slots.set(index, empty);
        proof {
            lemma_total_update(origin.slots@, index as int, empty, false);
            lemma_total_update(origin.slots@, index as int, empty, true);
            assert(fill(empty_row()) == 0);
        }
        let ghost cleared = *self;
        self.detach(slot, &gas_neighbors, false, Ghost(origin));
        let ghost gas_done = *self;
        proof {
            assert forall|a: int| a != slot implies #[trigger] gas_done.row(a, true) == origin.row(a, true) by {
                assert(gas_done.row(a, true) == cleared.row(a, true));
            }
            assert(gas_done.row(slot as int, true) == cleared.row(slot as int, true));
        }
        self.detach(slot, &heat_neighbors, true, Ghost(origin));
        let ghost heat_done = *self;
        proof {
            assert(self.gas_edges * 2 >= 2 * fill(gas_neighbors@));
            assert(self.heat_edges * 2 >= 2 * fill(heat_neighbors@));
            assert forall|a: int| #[trigger] heat_done.row(a, false) == gas_done.row(a, false) by {}
        }
        self.gas_edges -= removed_gas;
        self.heat_edges -= removed_heat;
        self.revision = self.revision.wrapping_add(1);
        proof {
            Self::lemma_same_rows(heat_done, *self);
            assert forall|a: int| #[trigger] self.row(a, false) == gas_done.row(a, false) by {
                assert(heat_done.row(a, false) == gas_done.row(a, false));
            }
            assert forall|a: int| 0 <= a < self.slot_count() implies row_wf(#[trigger] self.row(a, true)) by {
                assert(heat_done.row(a, true) == self.row(a, true));
            }
            assert forall|a: int, n: TopologyNeighbor| a != slot implies #[trigger] row_has(self.row(a, true), n)
                == (row_has(origin.row(a, true), n) && n.handle.slot != slot) by {
                assert(heat_done.row(a, true) == self.row(a, true));
            }
            assert(self.row(slot as int, true) == heat_done.row(slot as int, true));
            Self::lemma_removed_kind(origin, *self, slot, false);
            Self::lemma_removed_kind(origin, *self, slot, true);
            assert forall|k: bool| #[trigger] self.row(slot as int, k) == empty_row() by {
                if !k {
                    assert(self.row(slot as int, false) == gas_done.row(slot as int, false));
                }
            }
            assert forall|a: int, k: bool, n: TopologyNeighbor| a != slot implies #[trigger] row_has(self.row(a, k), n)
                == (row_has(origin.row(a, k), n) && n.handle.slot != slot) by {
                if !k {
                    assert(self.row(a, false) == gas_done.row(a, false));
                }
            }
        }
        true
    }

    /// Removes every connection of `handle`'s slot; see [`PackedTopology::remove_slot`].
    pub fn remove_turf(&mut self, handle: TurfHandle) -> (r: bool)
        requires
            old(self).wf(),
        ensures
            final(self).wf(),
            Self::remove_outcome(*old(self), *final(self), handle.slot, r),
            !r ==> {
                &&& final(self).edge_count(false) == old(self).edge_count(false)
                &&& final(self).edge_count(true) == old(self).edge_count(true)
                &&& final(self).revision_value() == old(self).revision_value()
            },
            r ==> {
                &&& final(self).revision_value() == old(self).revision_value().wrapping_add(1)
                &&& final(self).edge_count(false) + fill(old(self).row(handle.slot as int, false)) == old(self).edge_count(false)
                &&& final(self).edge_count(true) + fill(old(self).row(handle.slot as int, true)) == old(self).edge_count(true)
            },
    {
        self.remove_slot(handle.slot)
    }
}

impl PackedTopology {
    /// Connecting a pair that was not connected and then disconnecting it gives back every
    /// list exactly as it was, order and firelock states included, the same connection count,
    /// and a revision two steps on.
    pub proof fn lemma_connect_then_disconnect(
        t0: Self,
        t1: Self,
        t2: Self,
        left: TurfHandle,
        right: TurfHandle,
        heat: bool,
    )
        requires
            t0.wf(),
            t2.wf(),
            Self::connect_outcome(t0, t1, left, right, heat, Ok::<bool, TopologyError>(true)),
            t1.edge_count(heat) == t0.edge_count(heat) + 1,
            t1.revision_value() == t0.revision_value().wrapping_add(1),
            Self::disconnect_outcome(t1, t2, left, right, heat, true),
            t2.edge_count(heat) + 1 == t1.edge_count(heat),
            t2.revision_value() == t1.revision_value().wrapping_add(1),
        ensures
            forall|a: int, k: bool| #[trigger] t2.row(a, k) == t0.row(a, k),
            t2.edge_count(heat) == t0.edge_count(heat),
            t2.revision_value() == t0.revision_value().wrapping_add(2),
    {
        let l = left.slot as int;
        let rr = right.slot as int;
        assert forall|a: int, k: bool| #[trigger] t2.row(a, k) == t0.row(a, k) by {
            t0.lemma_row_shape(a, k);
            t2.lemma_row_shape(a, k);
            if k == heat && (a == l || a == rr) {
                let other = if a == l {
                    right
                } else {
                    left
                };
                assert forall|n: TopologyNeighbor| #[trigger] row_has(t2.row(a, k), n) == row_has(t0.row(a, k), n) by {
                    if row_has(t0.row(a, k), n) && n.handle == other {
                        let i = choose|i: int| 0 <= i < MAX_TURF_NEIGHBORS && t0.row(a, k)[i] == Some(n);
                        assert(occupied(t0.row(a, k), i) && neighbor_at(t0.row(a, k), i).handle.slot == other.slot);
                    }
                }
                lemma_row_determined(t2.row(a, k), t0.row(a, k));
            } else {
                assert(t1.row(a, k) == t0.row(a, k));
            }
        }
    }

    /// The lists after a removal are determined by the lists before it: removing a turf and
    /// removing its slot, or removing a slot twice from equal topologies, report the same and
    /// leave the same lists, position by position.
    pub proof fn lemma_removal_determined(t0: Self, t1: Self, t2: Self, slot: u32, r1: bool, r2: bool)
        requires
            t0.wf(),
            t1.wf(),
            t2.wf(),
            Self::remove_outcome(t0, t1, slot, r1),
            Self::remove_outcome(t0, t2, slot, r2),
        ensures
            r1 == r2,
            forall|a: int, k: bool| #[trigger] t1.row(a, k) == t2.row(a, k),
    {
        assert forall|a: int, k: bool| #[trigger] t1.row(a, k) == t2.row(a, k) by {
            if r1 && a != slot {
                t1.lemma_row_shape(a, k);
                t2.lemma_row_shape(a, k);
                assert forall|n: TopologyNeighbor| #[trigger] row_has(t1.row(a, k), n) == row_has(t2.row(a, k), n) by {}
                lemma_row_determined(t1.row(a, k), t2.row(a, k));
            }
        }
    }
}

/// The connections that slot `a` lists in the first `k` positions of `row` toward higher slots,
/// as `(a, neighbor slot, firelock)` triples in list order.
pub open spec fn row_edges(row: Seq<Option<TopologyNeighbor>>, a: int, k: int) -> Seq<(u32, u32, bool)>
    decreases k,
{
    if k <= 0 {
        Seq::empty()
    } else {
        let before = row_edges(row, a, k - 1);
        if occupied(row, k - 1) && a < neighbor_at(row, k - 1).handle.slot {
            before.push((a as u32, neighbor_at(row, k - 1).handle.slot, neighbor_at(row, k - 1).firelock))
        } else {
            before
        }
    }
}

/// Drops the firelock flag of an edge triple.
pub open spec fn edge_pair(t: (u32, u32, bool)) -> (u32, u32) {
    (t.0, t.1)
}

impl PackedTopology {
    /// Every connection of kind `heat` listed by the first `n` slots toward higher slots, slot
    /// by slot and in list order.
    pub open spec fn edges_upto(self, heat: bool, n: int) -> Seq<(u32, u32, bool)>
        decreases n,
    {
        if n <= 0 {
            Seq::empty()
        } else {
            self.edges_upto(heat, n - 1) + row_edges(self.row(n - 1, heat), n - 1, MAX_TURF_NEIGHBORS as int)
        }
    }

    /// The neighbors listed by slot `slot` in the lists of kind `heat`, in order.
    fn listed_neighbors(&self, slot: u32, heat: bool) -> (r: Vec<TopologyNeighbor>)
        requires
            self.wf(),
        ensures
            r@.len() == fill(self.row(slot as int, heat)),
            forall|i: int| 0 <= i < r@.len() ==> self.row(slot as int, heat)[i] == Some(#[trigger] r@[i]),
    {
        let mut result: Vec<TopologyNeighbor> = Vec::new();
        if slot as usize >= self.slots.len() {
            return result;
        }
        let neighbors = if heat {
            &self.slots[slot as usize].heat
        } else {
            &self.slots[slot as usize].gas
        };
        proof {
            assert(neighbors@ == self.row(slot as int, heat));
            assert(row_wf(neighbors@));
            lemma_fill(neighbors@);
        }
        let mut index: usize = 0;
        while index < MAX_TURF_NEIGHBORS
            invariant
                index <= MAX_TURF_NEIGHBORS,
                neighbors@ == self.row(slot as int, heat),
                forall|i: int| 0 <= i < MAX_TURF_NEIGHBORS ==> (occupied(neighbors@, i) <==> i < fill(neighbors@)),
                result@.len() == if index < fill(neighbors@) { index as nat } else { fill(neighbors@) },
                forall|i: int| 0 <= i < result@.len() ==> neighbors@[i] == Some(#[trigger] result@[i]),
            decreases MAX_TURF_NEIGHBORS - index,
        {
            let entry = neighbors[index];
            let ghost before = result@;
            if let Some(neighbor) = entry {
                result.push(neighbor);
            }
            proof {
                assert(entry == neighbors@[index as int]);
                if index < fill(neighbors@) {
                    assert(occupied(neighbors@, index as int));
                    assert(result@.len() == index + 1);
                    assert(result@[index as int] == entry->Some_0);
                } else {
                    assert(!occupied(neighbors@, index as int));
                }
                assert forall|i: int| 0 <= i < result@.len() implies neighbors@[i] == Some(#[trigger] result@[i]) by {
                    if i < before.len() {
                        assert(result@[i] == before[i]);
                    }
                }
            }
            index += 1;
        }
        result
    }

    /// The gas neighbors of `handle`'s slot, in slot order.
    pub fn gas_neighbors(&self, handle: TurfHandle) -> (r: Vec<TopologyNeighbor>)
        requires
            self.wf(),
        ensures
            r@.len() == fill(self.row(handle.slot as int, false)),
            forall|i: int| 0 <= i < r@.len() ==> self.row(handle.slot as int, false)[i] == Some(#[trigger] r@[i]),
    {
        self.listed_neighbors(handle.slot, false)
    }

    /// The heat neighbors of `handle`'s slot, in slot order.
    pub fn heat_neighbors(&self, handle: TurfHandle) -> (r: Vec<TopologyNeighbor>)
        requires
            self.wf(),
        ensures
            r@.len() == fill(self.row(handle.slot as int, true)),
            forall|i: int| 0 <= i < r@.len() ==> self.row(handle.slot as int, true)[i] == Some(#[trigger] r@[i]),
    {
        self.listed_neighbors(handle.slot, true)
    }

    /// Each connection of kind `heat` once, as `(lower slot, higher slot, firelock)`.
    fn slot_edges(&self, heat: bool) -> (r: Vec<(u32, u32, bool)>)
        requires
            self.wf(),
        ensures
            r@ == self.edges_upto(heat, self.slot_count() as int),
    {
        let mut result: Vec<(u32, u32, bool)> = Vec::new();
        let mut slot: usize = 0;
        while slot < self.slots.len()
            invariant
                self.wf(),
                slot <= self.slots@.len(),
                result@ == self.edges_upto(heat, slot as int),
            decreases self.slots@.len() - slot,
        {
            let neighbors = if heat {
                &self.slots[slot].heat
            } else {
                &self.slots[slot].gas
            };
            let ghost prefix = result@;
            proof {
                assert(neighbors@ == self.row(slot as int, heat));
            }
            let mut index: usize = 0;
            while index < MAX_TURF_NEIGHBORS
                invariant
                    index <= MAX_TURF_NEIGHBORS,
                    slot < self.slots@.len(),
                    self.slots@.len() <= u32::MAX as nat + 1,
                    neighbors@ == self.row(slot as int, heat),
                    neighbors@.len() == MAX_TURF_NEIGHBORS,
                    result@ == prefix + row_edges(neighbors@, slot as int, index as int),
                decreases MAX_TURF_NEIGHBORS - index,
            {
                if let Some(neighbor) = neighbors[index] {
                    if slot < neighbor.handle.slot as usize {
                        result.push((slot as u32, neighbor.handle.slot, neighbor.firelock));
                    }
                }
                proof {
                    assert(result@ =~= prefix + row_edges(neighbors@, slot as int, index as int + 1));
                }
                index += 1;
            }
            slot += 1;
        }
        result
    }

    /// Each gas connection once, as `(lower slot, higher slot, firelock)`.
    pub fn gas_slot_edges(&self) -> (r: Vec<(u32, u32, bool)>)
        requires
            self.wf(),
        ensures
            r@ == self.edges_upto(false, self.slot_count() as int),
    {
        self.slot_edges(false)
    }

    /// Each heat connection once, as `(lower slot, higher slot)`.
    pub fn heat_slot_edges(&self) -> (r: Vec<(u32, u32)>)
        requires
            self.wf(),
        ensures
            r@ == self.edges_upto(true, self.slot_count() as int).map_values(|t: (u32, u32, bool)| edge_pair(t)),
    {
        let triples = self.slot_edges(true);
        let mut result: Vec<(u32, u32)> = Vec::new();
        let mut index: usize = 0;
        while index < triples.len()
            invariant
                index <= triples@.len(),
                result@ == triples@.take(index as int).map_values(|t: (u32, u32, bool)| edge_pair(t)),
            decreases triples@.len() - index,
        {
            let t = triples[index];
            result.push((t.0, t.1));
            proof {
                assert(triples@.take(index as int + 1) =~= triples@.take(index as int).push(t));
                assert(result@ =~= triples@.take(index as int + 1).map_values(|t: (u32, u32, bool)| edge_pair(t)));
            }
            index += 1;
        }
        proof {
            assert(triples@.take(triples@.len() as int) =~= triples@);
        }
        result
    }
}

/// Whether edge `x` comes strictly before edge `y` by `(lower slot, higher slot)`.
pub open spec fn edge_before(x: (u32, u32, bool), y: (u32, u32, bool)) -> bool {
    x.0 < y.0 || (x.0 == y.0 && x.1 < y.1)
}

/// Whether slot `a`'s list `row` holds a neighbor in slot `b` with firelock state `firelock`.
pub open spec fn row_holds(row: Seq<Option<TopologyNeighbor>>, b: u32, firelock: bool) -> bool {
    exists|j: int|
        0 <= j < MAX_TURF_NEIGHBORS && occupied(row, j) && #[trigger] neighbor_at(row, j).handle.slot == b
            && neighbor_at(row, j).firelock == firelock
}

/// The edge that slot `a` reports for position `j` of its list `row`.
pub open spec fn entry_edge(row: Seq<Option<TopologyNeighbor>>, a: int, j: int) -> (u32, u32, bool) {
    (a as u32, neighbor_at(row, j).handle.slot, neighbor_at(row, j).firelock)
}

/// Whether `t` is the edge that some position below `k` of slot `a`'s list `row` reports
/// toward a higher slot.
pub open spec fn reported_by(row: Seq<Option<TopologyNeighbor>>, a: int, k: int, t: (u32, u32, bool)) -> bool {
    exists|j: int|
        0 <= j < k && occupied(row, j) && a < neighbor_at(row, j).handle.slot && #[trigger] entry_edge(row, a, j) == t
}

/// The edges one list reports all start at its slot, come in strictly increasing order of the
/// other slot, and are exactly the entries of its first `k` positions toward higher slots.
#[verifier::spinoff_prover]
proof fn lemma_row_edges(row: Seq<Option<TopologyNeighbor>>, a: int, k: int)
    requires
        row_wf(row),
        0 <= a <= u32::MAX,
        0 <= k <= MAX_TURF_NEIGHBORS,
    ensures
        forall|i: int| 0 <= i < row_edges(row, a, k).len() ==> #[trigger] row_edges(row, a, k)[i].0 == a,
        forall|i: int, j: int|
            #![trigger row_edges(row, a, k)[i], row_edges(row, a, k)[j]]
            0 <= i < j < row_edges(row, a, k).len() ==> row_edges(row, a, k)[i].1 < row_edges(row, a, k)[j].1,
        forall|i: int| 0 <= i < row_edges(row, a, k).len() ==> reported_by(row, a, k, #[trigger] row_edges(row, a, k)[i]),
        forall|j: int|
            0 <= j < k && occupied(row, j) && a < neighbor_at(row, j).handle.slot ==> row_edges(row, a, k).contains(
                #[trigger] entry_edge(row, a, j),
            ),
    decreases k,
{
    if k == 0 {
        assert(row_edges(row, a, k).len() == 0);
    } else {
        lemma_row_edges(row, a, k - 1);
        let prev = row_edges(row, a, k - 1);
        if occupied(row, k - 1) && a < neighbor_at(row, k - 1).handle.slot {
            let t = entry_edge(row, a, k - 1);
            assert(row_edges(row, a, k) == prev.push(t));
            assert forall|i: int, j: int| 0 <= i < j < row_edges(row, a, k).len() implies #[trigger] row_edges(row, a, k)[i].1
                < #[trigger] row_edges(row, a, k)[j].1 by {
                if j < prev.len() {
                    assert(row_edges(row, a, k)[i] == prev[i] && row_edges(row, a, k)[j] == prev[j]);
                } else {
                    assert(row_edges(row, a, k)[i] == prev[i]);
                    let jj = choose|jj: int|
                        0 <= jj < k - 1 && occupied(row, jj) && a < neighbor_at(row, jj).handle.slot && #[trigger] entry_edge(
                            row,
                            a,
                            jj,
                        ) == prev[i];
                    assert(row[jj] == row[jj] && row[k - 1] == row[k - 1]);
                }
            }
            assert forall|i: int| 0 <= i < row_edges(row, a, k).len() implies reported_by(
                row,
                a,
                k,
                #[trigger] row_edges(row, a, k)[i],
            ) by {
                if i < prev.len() {
                    assert(row_edges(row, a, k)[i] == prev[i]);
                    let jj = choose|jj: int|
                        0 <= jj < k - 1 && occupied(row, jj) && a < neighbor_at(row, jj).handle.slot && #[trigger] entry_edge(
                            row,
                            a,
                            jj,
                        ) == prev[i];
                    assert(entry_edge(row, a, jj) == row_edges(row, a, k)[i]);
                } else {
                    assert(entry_edge(row, a, k - 1) == row_edges(row, a, k)[i]);
                }
            }
            assert forall|j: int| 0 <= j < k && occupied(row, j) && a < neighbor_at(row, j).handle.slot implies row_edges(
                row,
                a,
                k,
            ).contains(#[trigger] entry_edge(row, a, j)) by {
                if j < k - 1 {
                    assert(prev.contains(entry_edge(row, a, j)));
                    let p = choose|p: int| 0 <= p < prev.len() && prev[p] == entry_edge(row, a, j);
                    assert(row_edges(row, a, k)[p] == entry_edge(row, a, j));
                } else {
                    assert(row_edges(row, a, k)[prev.len() as int] == t);
                }
            }
        } else {
            assert(row_edges(row, a, k) == prev);
            assert forall|i: int| 0 <= i < row_edges(row, a, k).len() implies reported_by(
                row,
                a,
                k,
                #[trigger] row_edges(row, a, k)[i],
            ) by {
                let jj = choose|jj: int|
                    0 <= jj < k - 1 && occupied(row, jj) && a < neighbor_at(row, jj).handle.slot && #[trigger] entry_edge(
                        row,
                        a,
                        jj,
                    ) == prev[i];
                assert(entry_edge(row, a, jj) == row_edges(row, a, k)[i]);
            }
        }
    }
}

impl PackedTopology {
    /// The edges reported up to slot `n` are in strictly increasing order, each with its lower
    /// slot below `n`, and are exactly the listed connections from a slot below `n` toward a
    /// higher slot.
    proof fn lemma_edges_upto(self, heat: bool, n: int)
        requires
            self.wf(),
            0 <= n <= self.slot_count(),
        ensures
            forall|i: int, j: int|
                #![trigger self.edges_upto(heat, n)[i], self.edges_upto(heat, n)[j]]
                0 <= i < j < self.edges_upto(heat, n).len() ==> edge_before(
                    self.edges_upto(heat, n)[i],
                    self.edges_upto(heat, n)[j],
                ),
            forall|i: int| 0 <= i < self.edges_upto(heat, n).len() ==> (#[trigger] self.edges_upto(heat, n)[i]).0 < n,
            forall|t: (u32, u32, bool)| #[trigger] self.edges_upto(heat, n).contains(t) <==> ((t.0 as int) < n && t.0 < t.1
                && row_holds(self.row(t.0 as int, heat), t.1, t.2)),
        decreases n,
    {
        if n > 0 {
            self.lemma_edges_upto(heat, n - 1);
            let a = n - 1;
            let row = self.row(a, heat);
            assert(row_wf(row));
            lemma_row_edges(row, a, MAX_TURF_NEIGHBORS as int);
            let prev = self.edges_upto(heat, n - 1);
            let tail = row_edges(row, a, MAX_TURF_NEIGHBORS as int);
            let all = self.edges_upto(heat, n);
            assert(all == prev + tail);
            assert forall|i: int, j: int| 0 <= i < j < all.len() implies edge_before(#[trigger] all[i], #[trigger] all[j]) by {
                if j < prev.len() {
                    assert(all[i] == prev[i] && all[j] == prev[j]);
                } else if i < prev.len() {
                    assert(all[i] == prev[i] && all[j] == tail[j - prev.len()]);
                } else {
                    assert(all[i] == tail[i - prev.len()] && all[j] == tail[j - prev.len()]);
                }
            }
            assert forall|i: int| 0 <= i < all.len() implies (#[trigger] all[i]).0 < n by {
                if i < prev.len() {
                    assert(all[i] == prev[i]);
                } else {
                    assert(all[i] == tail[i - prev.len()]);
                }
            }
            assert forall|t: (u32, u32, bool)| #[trigger] all.contains(t) <==> ((t.0 as int) < n && t.0 < t.1 && row_holds(
                self.row(t.0 as int, heat),
                t.1,
                t.2,
            )) by {
                if all.contains(t) {
                    let p = choose|p: int| 0 <= p < all.len() && all[p] == t;
                    if p < prev.len() {
                        assert(all[p] == prev[p]);
                        assert(prev.contains(t));
                    } else {
                        let q = p - prev.len();
                        assert(all[p] == tail[q]);
                        let j = choose|j: int|
                            0 <= j < MAX_TURF_NEIGHBORS && occupied(row, j) && a < neighbor_at(row, j).handle.slot
                                && #[trigger] entry_edge(row, a, j) == tail[q];
                        assert(neighbor_at(row, j).handle.slot == t.1);
                    }
                }
                if (t.0 as int) < n && t.0 < t.1 && row_holds(self.row(t.0 as int, heat), t.1, t.2) {
                    if (t.0 as int) < n - 1 {
                        assert(prev.contains(t));
                        let p = choose|p: int| 0 <= p < prev.len() && prev[p] == t;
                        assert(all[p] == t);
                    } else {
                        let j = choose|j: int|
                            0 <= j < MAX_TURF_NEIGHBORS && occupied(row, j) && #[trigger] neighbor_at(row, j).handle.slot == t.1
                                && neighbor_at(row, j).firelock == t.2;
                        assert(tail.contains(entry_edge(row, a, j)));
                        let q = choose|q: int| 0 <= q < tail.len() && tail[q] == t;
                        assert(all[prev.len() + q] == t);
                    }
                }
            }
        }
    }

    /// Each connection is reported once: the reported edges are in strictly increasing order
    /// of `(lower slot, higher slot)`, so no pair of slots comes twice, and they are exactly
    /// the listed connections `(a, b, firelock)` with `a < b`.
    pub proof fn lemma_slot_edges_once(self, heat: bool)
        requires
            self.wf(),
        ensures
            forall|i: int, j: int|
                #![trigger self.edges_upto(heat, self.slot_count() as int)[i], self.edges_upto(heat, self.slot_count() as int)[j]]
                0 <= i < j < self.edges_upto(heat, self.slot_count() as int).len() ==> edge_before(
                    self.edges_upto(heat, self.slot_count() as int)[i],
                    self.edges_upto(heat, self.slot_count() as int)[j],
                ),
            forall|t: (u32, u32, bool)| #[trigger] self.edges_upto(heat, self.slot_count() as int).contains(t) <==> (t.0 < t.1
                && row_holds(self.row(t.0 as int, heat), t.1, t.2)),
    {
        self.lemma_edges_upto(heat, self.slot_count() as int);
        assert forall|t: (u32, u32, bool)| row_holds(self.row(t.0 as int, heat), t.1, t.2) implies (t.0 as int) < self.slot_count() by {
            if (t.0 as int) >= self.slot_count() {
                self.lemma_row_shape(t.0 as int, heat);
                let j = choose|j: int|
                    0 <= j < MAX_TURF_NEIGHBORS && occupied(self.row(t.0 as int, heat), j) && #[trigger] neighbor_at(
                        self.row(t.0 as int, heat),
                        j,
                    ).handle.slot == t.1 && neighbor_at(self.row(t.0 as int, heat), j).firelock == t.2;
                assert(self.row(t.0 as int, heat)[j] == empty_row()[j]);
            }
        }
    }
}

/// The slot pairs `(a, b)` that slot `a`'s packed list `row` connects.
spec fn row_pairs(row: Seq<Option<TopologyNeighbor>>, a: int) -> Set<(int, int)> {
    Seq::new(fill(row), |j: int| (a, neighbor_at(row, j).handle.slot as int)).to_set()
}

/// A packed list connects as many slot pairs as it holds neighbors.
proof fn lemma_row_pairs(row: Seq<Option<TopologyNeighbor>>, a: int)
    requires
        row_wf(row),
    ensures
        row_pairs(row, a).finite(),
        row_pairs(row, a).len() == fill(row),
        forall|p: (int, int)| #[trigger] row_pairs(row, a).contains(p) <==> (p.0 == a && exists|j: int|
            0 <= j < MAX_TURF_NEIGHBORS && occupied(row, j) && #[trigger] neighbor_at(row, j).handle.slot as int == p.1),
{
    broadcast use vstd::seq_lib::seq_to_set_is_finite;

    lemma_fill(row);
    let s = Seq::new(fill(row), |j: int| (a, neighbor_at(row, j).handle.slot as int));
    assert(s.no_duplicates()) by {
        assert forall|i: int, j: int| 0 <= i < s.len() && 0 <= j < s.len() && i != j implies s[i] != s[j] by {
            assert(row[i] == row[i] && row[j] == row[j]);
        }
    }
    s.unique_seq_to_set();
    assert forall|p: (int, int)| #[trigger] row_pairs(row, a).contains(p) <==> (p.0 == a && exists|j: int|
        0 <= j < MAX_TURF_NEIGHBORS && occupied(row, j) && #[trigger] neighbor_at(row, j).handle.slot as int == p.1) by {
        if s.contains(p) {
            let i = choose|i: int| 0 <= i < s.len() && s[i] == p;
            assert(occupied(row, i) && neighbor_at(row, i).handle.slot as int == p.1);
        }
        if p.0 == a && exists|j: int|
            0 <= j < MAX_TURF_NEIGHBORS && occupied(row, j) && #[trigger] neighbor_at(row, j).handle.slot as int == p.1 {
            let j = choose|j: int|
                0 <= j < MAX_TURF_NEIGHBORS && occupied(row, j) && #[trigger] neighbor_at(row, j).handle.slot as int == p.1;
            assert(s[j] == p);
        }
    }
}

impl PackedTopology {
    /// The slot pairs connected by the lists of kind `heat` of the first `n` slots.
    spec fn pairs_upto(self, heat: bool, n: int) -> Set<(int, int)>
        decreases n,
    {
        if n <= 0 {
            Set::empty()
        } else {
            self.pairs_upto(heat, n - 1) + row_pairs(self.row(n - 1, heat), n - 1)
        }
    }

    /// The first `n` slots connect as many slot pairs as their lists hold neighbors.
    proof fn lemma_pairs_upto(self, heat: bool, n: int)
        requires
            self.wf(),
            0 <= n <= self.slot_count(),
        ensures
            self.pairs_upto(heat, n).finite(),
            self.pairs_upto(heat, n).len() == total(self.slots@.take(n), heat),
            forall|p: (int, int)| #[trigger] self.pairs_upto(heat, n).contains(p) <==> (0 <= p.0 < n && exists|j: int|
                0 <= j < MAX_TURF_NEIGHBORS && occupied(self.row(p.0, heat), j) && #[trigger] neighbor_at(self.row(p.0, heat), j).handle.slot as int == p.1),
        decreases n,
    {
        if n == 0 {
            assert(self.slots@.take(0) =~= Seq::<TopologySlot>::empty());
        } else {
            self.lemma_pairs_upto(heat, n - 1);
            let row = self.row(n - 1, heat);
            assert(row_wf(row));
            lemma_row_pairs(row, n - 1);
            let prev = self.pairs_upto(heat, n - 1);
            let cur = row_pairs(row, n - 1);
            assert(prev.disjoint(cur));
            vstd::set_lib::lemma_set_disjoint_lens(prev, cur);
            assert(self.slots@.take(n).drop_last() =~= self.slots@.take(n - 1));
            assert(self.slots@.take(n).last() == self.slots@[n - 1]);
            assert(slot_row(self.slots@[n - 1], heat) == row);
        }
    }

    /// Each connection is listed by both of its ends and reported once: the edges reported
    /// for a kind are exactly as many as its connection counter says.
    pub proof fn lemma_slot_edges_count(self, heat: bool)
        requires
            self.wf(),
        ensures
            self.edges_upto(heat, self.slot_count() as int).len() == self.edge_count(heat),
    {
        broadcast use vstd::seq_lib::seq_to_set_is_finite;
        broadcast use vstd::set::group_set_axioms;

        let n = self.slot_count() as int;
        let edges = self.edges_upto(heat, n);
        self.lemma_slot_edges_once(heat);
        self.lemma_pairs_upto(heat, n);
        assert(self.slots@.take(n) =~= self.slots@);
        let all = self.pairs_upto(heat, n);
        let up = all.filter(|p: (int, int)| p.0 < p.1);
        let down = all.filter(|p: (int, int)| p.0 > p.1);
        vstd::set_lib::lemma_len_subset(up, all);
        vstd::set_lib::lemma_len_subset(down, all);
        // Every listed pair joins two different slots, so it goes up or down.
        assert(all =~= up + down) by {
            assert forall|p: (int, int)| all.contains(p) implies p.0 != p.1 by {
                let j = choose|j: int|
                    0 <= j < MAX_TURF_NEIGHBORS && occupied(self.row(p.0, heat), j) && #[trigger] neighbor_at(self.row(p.0, heat), j).handle.slot as int == p.1;
                assert(self.linked_back(p.0, neighbor_at(self.row(p.0, heat), j), heat));
            }
        }
        assert(up.disjoint(down));
        vstd::set_lib::lemma_set_disjoint_lens(up, down);
        // Turning each pair around maps the downward pairs onto the upward ones.
        let swap = |p: (int, int)| (p.1, p.0);
        assert(down.map(swap) =~= up) by {
            assert forall|p: (int, int)| #[trigger] up.contains(p) implies down.map(swap).contains(p) by {
                let j = choose|j: int|
                    0 <= j < MAX_TURF_NEIGHBORS && occupied(self.row(p.0, heat), j) && #[trigger] neighbor_at(self.row(p.0, heat), j).handle.slot as int == p.1;
                let e = neighbor_at(self.row(p.0, heat), j);
                assert(self.linked_back(p.0, e, heat));
                let k = lemma_links_witness(self.row(p.1, heat), p.0 as u32, e.firelock);
                assert(neighbor_at(self.row(p.1, heat), k).handle.slot as int == p.0);
                assert(0 <= p.1 < n);
                assert(all.contains((p.1, p.0)));
                assert(down.contains((p.1, p.0)));
                assert(swap((p.1, p.0)) == p);
            }
            assert forall|p: (int, int)| #[trigger] down.map(swap).contains(p) implies up.contains(p) by {
                let q = choose|q: (int, int)| down.contains(q) && p == swap(q);
                let j = choose|j: int|
                    0 <= j < MAX_TURF_NEIGHBORS && occupied(self.row(q.0, heat), j) && #[trigger] neighbor_at(self.row(q.0, heat), j).handle.slot as int == q.1;
                let e = neighbor_at(self.row(q.0, heat), j);
                assert(self.linked_back(q.0, e, heat));
                let k = lemma_links_witness(self.row(q.1, heat), q.0 as u32, e.firelock);
                assert(neighbor_at(self.row(q.1, heat), k).handle.slot as int == q.0);
                assert(0 <= q.1 < n);
                assert(all.contains((q.1, q.0)));
                assert(p == (q.1, q.0));
            }
        }
        vstd::set_lib::lemma_map_size(down, up, swap);
        // The reported edges name the upward pairs, each once.
        let pair = |t: (u32, u32, bool)| (t.0 as int, t.1 as int);
        assert(edges.no_duplicates()) by {
            assert forall|i: int, j: int| 0 <= i < edges.len() && 0 <= j < edges.len() && i != j implies edges[i] != edges[j] by {
                if i < j {
                    assert(edge_before(edges[i], edges[j]));
                } else {
                    assert(edge_before(edges[j], edges[i]));
                }
            }
        }
        edges.unique_seq_to_set();
        assert(vstd::relations::injective_on(pair, edges.to_set())) by {
            assert forall|x: (u32, u32, bool), y: (u32, u32, bool)|
                edges.to_set().contains(x) && edges.to_set().contains(y) && #[trigger] pair(x) == #[trigger] pair(y) implies x == y by {
                let i = choose|i: int| 0 <= i < edges.len() && edges[i] == x;
                let j = choose|j: int| 0 <= j < edges.len() && edges[j] == y;
                if i < j {
                    assert(edge_before(edges[i], edges[j]));
                } else if j < i {
                    assert(edge_before(edges[j], edges[i]));
                }
            }
        }
        assert(edges.to_set().map(pair) =~= up) by {
            assert forall|p: (int, int)| #[trigger] up.contains(p) implies edges.to_set().map(pair).contains(p) by {
                let j = choose|j: int|
                    0 <= j < MAX_TURF_NEIGHBORS && occupied(self.row(p.0, heat), j) && #[trigger] neighbor_at(self.row(p.0, heat), j).handle.slot as int == p.1;
                let e = neighbor_at(self.row(p.0, heat), j);
                let t = (p.0 as u32, e.handle.slot, e.firelock);
                assert(row_holds(self.row(t.0 as int, heat), t.1, t.2));
                assert(edges.contains(t));
                assert(edges.to_set().contains(t));
                assert(pair(t) == p);
            }
            assert forall|p: (int, int)| #[trigger] edges.to_set().map(pair).contains(p) implies up.contains(p) by {
                let t = choose|t: (u32, u32, bool)| edges.to_set().contains(t) && p == pair(t);
                assert(edges.contains(t));
                let j = choose|j: int|
                    0 <= j < MAX_TURF_NEIGHBORS && occupied(self.row(t.0 as int, heat), j) && #[trigger] neighbor_at(self.row(t.0 as int, heat), j).handle.slot == t.1
                        && neighbor_at(self.row(t.0 as int, heat), j).firelock == t.2;
                self.lemma_row_shape(t.0 as int, heat);
                if (t.0 as int) >= n {
                    assert(self.row(t.0 as int, heat)[j] == empty_row()[j]);
                }
                assert(neighbor_at(self.row(p.0, heat), j).handle.slot as int == p.1);
            }
        }
        vstd::set_lib::lemma_map_size(edges.to_set(), up, pair);
    }
}

} // verus!
