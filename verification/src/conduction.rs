//! Heat conduction bookkeeping: the step statistics, the error type, and the canonical form
//! of an undirected conduction edge list.
use vstd::prelude::*;

use crate::handles::pair_lt;

verus! {

/// What one conduction step did.
#[derive(Clone, Copy, Debug, PartialEq, Eq)]
pub struct ConductionStats {
    pub substeps: u32,
    pub edges_applied: u64,
}

/// Why a conduction step was refused.
#[derive(Clone, Debug, PartialEq, Eq)]
pub enum ConductionError {
    Cancelled,
    LengthMismatch,
    InvalidElapsedTime,
    InvalidTemperature { index: usize },
    InvalidConductivity { index: usize },
    InvalidCapacity { index: usize },
    UnknownNode(u32),
    SelfEdge(u32),
    DuplicateEdge { first: u32, second: u32 },
    TooManySubsteps,
}

/// Lexicographic order on pairs, the order std gives tuples.
pub open spec fn pair_le(a: (u32, u32), b: (u32, u32)) -> bool {
    !pair_lt(b.0, b.1, a.0, a.1)
}

/// The edge with its smaller endpoint first.
pub open spec fn normalized(e: (u32, u32)) -> (u32, u32) {
    if e.0 < e.1 {
        e
    } else {
        (e.1, e.0)
    }
}

/// Every edge of `edges` with its smaller endpoint first.
pub open spec fn normalized_all(edges: Seq<(u32, u32)>) -> Seq<(u32, u32)> {
    edges.map_values(|e: (u32, u32)| normalized(e))
}

/// The error that edge `j` raises: both endpoints must be below `node_count`, and they must
/// differ.
pub open spec fn endpoint_fault(edges: Seq<(u32, u32)>, node_count: int, j: int) -> Option<ConductionError> {
    let e = edges[j];
    if e.0 >= node_count {
        Some(ConductionError::UnknownNode(e.0))
    } else if e.1 >= node_count {
        Some(ConductionError::UnknownNode(e.1))
    } else if e.0 == e.1 {
        Some(ConductionError::SelfEdge(e.0))
    } else {
        None
    }
}

/// Whether edge `j` is the first with a bad endpoint.
pub open spec fn first_endpoint_fault(edges: Seq<(u32, u32)>, node_count: int, j: int) -> bool {
    &&& 0 <= j < edges.len()
    &&& endpoint_fault(edges, node_count, j) is Some
    &&& forall|k: int| 0 <= k < j ==> #[trigger] endpoint_fault(edges, node_count, k) is None
}

/// Whether `p` is the smallest edge that occurs more than once in `edges`, ignoring direction.
pub open spec fn least_repeated(edges: Seq<(u32, u32)>, p: (u32, u32)) -> bool {
    let counts = normalized_all(edges).to_multiset();
    &&& counts.count(p) >= 2
    &&& forall|q: (u32, u32)| #[trigger] counts.count(q) >= 2 ==> pair_le(p, q)
}

/// Sorts `pairs` in ascending order.
///
/// Calls std's `slice::sort_unstable`, which the standard library documents as sorting in
/// ascending order (equal elements may be reordered); tuples order lexicographically. The
/// contract claims the result holds the same pairs, each at most the next.
#[verifier::external_body]
fn sort_pairs(pairs: &mut Vec<(u32, u32)>)
    ensures
        final(pairs)@.to_multiset() == old(pairs)@.to_multiset(),
        forall|a: int, b: int|
            0 <= a < b < final(pairs)@.len() ==> pair_le(#[trigger] final(pairs)@[a], #[trigger] final(pairs)@[b]),
{
    pairs.sort_unstable();
}

/// The edge list in canonical form: each edge with its smaller endpoint first, sorted, and
/// refused if an endpoint is out of range, an edge joins a node to itself (the first such
/// edge is named), or the same undirected edge occurs twice (the smallest is named).
pub fn canonical_edges(edges: &[(u32, u32)], node_count: usize) -> (r: Result<Vec<(u32, u32)>, ConductionError>)
    ensures
        (exists|j: int| #[trigger] first_endpoint_fault(edges@, node_count as int, j)) ==> exists|j: int| #[trigger]
            first_endpoint_fault(edges@, node_count as int, j) && r == Err::<Vec<(u32, u32)>, ConductionError>(
                endpoint_fault(edges@, node_count as int, j)->0,
            ),
        (forall|j: int| 0 <= j < edges@.len() ==> #[trigger] endpoint_fault(edges@, node_count as int, j) is None)
            ==> match r {
            Ok(canonical) => {
                &&& canonical@.to_multiset() == normalized_all(edges@).to_multiset()
                &&& forall|a: int, b: int|
                    0 <= a < b < canonical@.len() ==> pair_lt(
                        #[trigger] canonical@[a].0,
                        canonical@[a].1,
                        #[trigger] canonical@[b].0,
                        canonical@[b].1,
                    )
                &&& forall|q: (u32, u32)| #[trigger] normalized_all(edges@).to_multiset().count(q) <= 1
            },
            Err(e) => exists|p: (u32, u32)| #[trigger]
                least_repeated(edges@, p) && e == ConductionError::DuplicateEdge { first: p.0, second: p.1 },
        },
{
    broadcast use vstd::seq_lib::group_to_multiset_ensures;
    broadcast use vstd::multiset::group_multiset_axioms;

    let mut canonical: Vec<(u32, u32)> = Vec::new();
    let mut index: usize = 0;
    while index < edges.len()
        invariant
            index <= edges@.len(),
            forall|k: int| 0 <= k < index ==> #[trigger] endpoint_fault(edges@, node_count as int, k) is None,
            canonical@ == normalized_all(edges@.take(index as int)),
        decreases edges@.len() - index,
    {
        let (first, second) = edges[index];
        if first as usize >= node_count {
            proof {
                assert(first_endpoint_fault(edges@, node_count as int, index as int));
            }
            return Err(ConductionError::UnknownNode(first));
        }
        if second as usize >= node_count {
            proof {
                assert(first_endpoint_fault(edges@, node_count as int, index as int));
            }
            return Err(ConductionError::UnknownNode(second));
        }
        if first == second {
            proof {
                assert(first_endpoint_fault(edges@, node_count as int, index as int));
            }
            return Err(ConductionError::SelfEdge(first));
        }
        if first < second {
            canonical.push((first, second));
        } else {
            canonical.push((second, first));
        }
        proof {
            assert(canonical@ =~= normalized_all(edges@.take(index as int + 1)));
        }
        index += 1;
    }
    proof {
        assert(edges@.take(index as int) =~= edges@);
        assert forall|j: int| !#[trigger] first_endpoint_fault(edges@, node_count as int, j) by {}
    }
    let ghost unsorted = canonical@;
    proof {
        assert(unsorted == normalized_all(edges@));
    }
    sort_pairs(&mut canonical);
    let count = canonical.len();
    let mut position: usize = 0;
    while position + 1 < count
        invariant
            count == canonical@.len(),
            unsorted == normalized_all(edges@),
            forall|j: int| 0 <= j < edges@.len() ==> #[trigger] endpoint_fault(edges@, node_count as int, j) is None,
            forall|j: int| !#[trigger] first_endpoint_fault(edges@, node_count as int, j),
            canonical@.to_multiset() == unsorted.to_multiset(),
            forall|a: int, b: int|
                0 <= a < b < canonical@.len() ==> pair_le(#[trigger] canonical@[a], #[trigger] canonical@[b]),
            position < count || (count == 0 && position == 0),
            forall|a: int, b: int|
                0 <= a < b <= position && b < canonical@.len() ==> pair_lt(
                    #[trigger] canonical@[a].0,
                    canonical@[a].1,
                    #[trigger] canonical@[b].0,
                    canonical@[b].1,
                ),
        decreases canonical@.len() - position,
    {
        let current = canonical[position];
        let next = canonical[position + 1];
        if current.0 == next.0 && current.1 == next.1 {
            proof {
                lemma_first_repeat_is_least(canonical@, position as int);
                assert(canonical@.to_multiset() == normalized_all(edges@).to_multiset());
                assert(least_repeated(edges@, current));
            }
            return Err(ConductionError::DuplicateEdge { first: current.0, second: current.1 });
        }
        position += 1;
    }
    proof {
        let s = canonical@;
        assert(s.no_duplicates()) by {
            assert forall|a: int, b: int| 0 <= a < s.len() && 0 <= b < s.len() && a != b implies s[a] != s[b] by {
                if a < b {
                    assert(pair_lt(s[a].0, s[a].1, s[b].0, s[b].1));
                } else {
                    assert(pair_lt(s[b].0, s[b].1, s[a].0, s[a].1));
                }
            }
        }
        s.lemma_multiset_has_no_duplicates();
        assert forall|q: (u32, u32)| #[trigger] s.to_multiset().count(q) <= 1 by {
            if s.to_multiset().count(q) > 0 {
                assert(s.to_multiset().contains(q));
            }
        }
    }
    Ok(canonical)
}

/// In a sorted sequence that strictly increases up to position `k` and repeats there, the
/// repeated entry is the smallest entry that occurs more than once.
proof fn lemma_first_repeat_is_least(s: Seq<(u32, u32)>, k: int)
    requires
        0 <= k,
        k + 1 < s.len(),
        s[k] == s[k + 1],
        forall|a: int, b: int| 0 <= a < b < s.len() ==> pair_le(#[trigger] s[a], #[trigger] s[b]),
        forall|a: int, b: int|
            0 <= a < b <= k ==> pair_lt(#[trigger] s[a].0, s[a].1, #[trigger] s[b].0, s[b].1),
    ensures
        s.to_multiset().count(s[k]) >= 2,
        forall|q: (u32, u32)| #[trigger] s.to_multiset().count(q) >= 2 ==> pair_le(s[k], q),
{
    broadcast use vstd::seq_lib::group_to_multiset_ensures;
    broadcast use vstd::multiset::group_multiset_axioms;

    let head = s.subrange(0, k + 1);
    let tail = s.subrange(k + 1, s.len() as int);
    assert(s =~= head + tail);
    vstd::seq_lib::lemma_multiset_commutative(head, tail);
    assert(head[k] == s[k]);
    assert(tail[0] == s[k]);
    assert(head.contains(s[k]));
    assert(tail.contains(s[k]));
    assert forall|q: (u32, u32)| #[trigger] s.to_multiset().count(q) >= 2 implies pair_le(s[k], q) by {
        if !pair_le(s[k], q) {
            assert(head.no_duplicates()) by {
                assert forall|a: int, b: int| 0 <= a < head.len() && 0 <= b < head.len() && a != b implies head[a]
                    != head[b] by {
                    if a < b {
                        assert(pair_lt(s[a].0, s[a].1, s[b].0, s[b].1));
                    } else {
                        assert(pair_lt(s[b].0, s[b].1, s[a].0, s[a].1));
                    }
                }
            }
            head.lemma_multiset_has_no_duplicates();
            assert(!tail.contains(q)) by {
                if tail.contains(q) {
                    let g = choose|g: int| 0 <= g < tail.len() && #[trigger] tail[g] == q;
                    assert(pair_le(s[k + 1], s[k + 1 + g]));
                }
            }
            if head.to_multiset().count(q) > 0 {
                assert(head.to_multiset().contains(q));
            }
        }
    }
}

} // verus!
