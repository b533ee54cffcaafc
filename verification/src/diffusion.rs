//! The diffusion graph: nodes with their mixtures, validated symmetric edges, and the packed
//! (compressed sparse row) adjacency that the diffusion stencil walks.
use vstd::prelude::*;

pub use crate::handles::MixtureHandle;
use std::collections::{HashMap, HashSet};
use vstd::slice::slice_subrange;

verus! {

/// Most neighbors a node may have: the four cardinal directions plus up and down.
pub const MAX_CARDINAL_NEIGHBORS: u32 = 6;

/// Caller-chosen identifier of a graph node.
#[derive(Clone, Copy, Debug, PartialEq, Eq, PartialOrd, Ord)]
pub struct NodeHandle(pub u32);

/// A node of the diffusion graph.
#[derive(Clone, Copy, Debug, PartialEq, Eq)]
pub struct GraphNode {
    pub handle: NodeHandle,
    pub generation: u32,
    pub mixture: Option<MixtureHandle>,
}

/// An edge from one node to another.
#[derive(Clone, Copy, Debug, PartialEq, Eq, PartialOrd, Ord)]
pub struct DirectedEdge {
    pub from: NodeHandle,
    pub to: NodeHandle,
}

/// What [`upsert_graph_node`] did.
#[derive(Clone, Copy, Debug, PartialEq, Eq)]
pub enum NodeUpsert {
    Inserted,
    Replaced { previous_generation: u32 },
    IgnoredStale { current_generation: u32 },
}

/// Why a node and edge list is not a valid diffusion graph.
#[derive(Clone, Debug, PartialEq, Eq)]
pub enum GraphValidationError {
    DuplicateNode(NodeHandle),
    MissingMixture(NodeHandle),
    UnknownNode(NodeHandle),
    SelfEdge(NodeHandle),
    DuplicateEdge { from: NodeHandle, to: NodeHandle },
    MissingReciprocalEdge { from: NodeHandle, to: NodeHandle },
    DegreeExceeded { handle: NodeHandle, degree: u32 },
    HandleSpaceExceeded,
}

/// Why a diffusion step was refused.
#[derive(Clone, Debug, PartialEq, Eq)]
pub enum DiffusionError {
    Cancelled,
    UnsupportedDegree(u32),
    StateLength { expected: usize, actual: usize },
    OutputLength { expected: usize, actual: usize },
    InvalidStateValue { index: usize },
    StateSpaceExceeded,
}

/// Whether `i` is the first position of `nodes` whose handle is `handle`.
pub open spec fn first_with(nodes: Seq<GraphNode>, handle: NodeHandle, i: int) -> bool {
    &&& 0 <= i < nodes.len()
    &&& nodes[i].handle == handle
    &&& forall|j: int| 0 <= j < i ==> (#[trigger] nodes[j]).handle != handle
}

/// Whether some node of `nodes` has `handle`.
pub open spec fn has_handle(nodes: Seq<GraphNode>, handle: NodeHandle) -> bool {
    exists|i: int| 0 <= i < nodes.len() && (#[trigger] nodes[i]).handle == handle
}

/// Replaces the first node with `replacement`'s handle unless `replacement` has an older
/// generation, or appends `replacement` when no node has its handle.
pub fn upsert_graph_node(nodes: &mut Vec<GraphNode>, replacement: GraphNode) -> (r: NodeUpsert)
    ensures
        !has_handle(old(nodes)@, replacement.handle) ==> r == NodeUpsert::Inserted && final(nodes)@
            == old(nodes)@.push(replacement),
        has_handle(old(nodes)@, replacement.handle) ==> exists|i: int| #[trigger]
            first_with(old(nodes)@, replacement.handle, i) && if replacement.generation
            < old(nodes)@[i].generation {
            &&& r == NodeUpsert::IgnoredStale { current_generation: old(nodes)@[i].generation }
            &&& final(nodes)@ == old(nodes)@
        } else {
            &&& r == NodeUpsert::Replaced { previous_generation: old(nodes)@[i].generation }
            &&& final(nodes)@ == old(nodes)@.update(i, replacement)
        },
{
    let mut index: usize = 0;
    while index < nodes.len()
        invariant
            index <= nodes@.len(),
            nodes@ == old(nodes)@,
            forall|j: int| 0 <= j < index ==> (#[trigger] nodes@[j]).handle != replacement.handle,
        decreases nodes@.len() - index,
    {
        if nodes[index].handle.0 == replacement.handle.0 {
            let current = nodes[index].generation;
            proof {
                assert(first_with(old(nodes)@, replacement.handle, index as int));
            }
            if replacement.generation < current {
                return NodeUpsert::IgnoredStale { current_generation: current };
            }
            nodes.set(index, replacement);
            return NodeUpsert::Replaced { previous_generation: current };
        }
        index += 1;
    }
    nodes.push(replacement);
    NodeUpsert::Inserted
}

/// A validated diffusion graph in packed adjacency form.
#[derive(Debug, PartialEq, Eq)]
pub struct DiffusionGraph {
    nodes: Vec<GraphNode>,
    handle_to_index: HashMap<u32, u32>,
    offsets: Vec<u32>,
    neighbors: Vec<u32>,
}

/// Whether `s` is strictly increasing.
pub open spec fn strictly_increasing(s: Seq<u32>) -> bool {
    forall|a: int, b: int| 0 <= a < b < s.len() ==> s[a] < s[b]
}

/// Whether the node at position `t` is a neighbor of the node at position `i`: the edge
/// list holds the edge between their handles.
pub open spec fn linked(nodes: Seq<GraphNode>, edges: Seq<DirectedEdge>, i: int, t: int) -> bool {
    &&& 0 <= t < nodes.len()
    &&& edges.contains(DirectedEdge { from: nodes[i].handle, to: nodes[t].handle })
}

/// A copy of `v`, element by element.
fn copy_elements<T: Copy>(v: &Vec<T>) -> (r: Vec<T>)
    ensures
        r@ == v@,
{
    let mut r: Vec<T> = Vec::new();
    let mut i: usize = 0;
    while i < v.len()
        invariant
            i <= v@.len(),
            r@ == v@.take(i as int),
        decreases v@.len() - i,
    {
        r.push(v[i]);
        i += 1;
        proof {
            assert(r@ =~= v@.take(i as int));
        }
    }
    proof {
        assert(v@.take(i as int) =~= v@);
    }
    r
}

impl Clone for DiffusionGraph {
    /// A copy with the same nodes, rows and handle index.
    fn clone(&self) -> (r: Self)
        ensures
            r.node_seq() == self.node_seq(),
            forall|i: int| #[trigger] r.row(i) == self.row(i),
            forall|h: NodeHandle| #[trigger] r.locate(h) == self.locate(h),
    {
        proof {
            use_type_invariant(self);
        }
        let nodes = copy_elements(&self.nodes);
        let handle_to_index = self.handle_to_index.clone();
        let offsets = copy_elements(&self.offsets);
        let neighbors = copy_elements(&self.neighbors);
        proof {
            let g = DiffusionGraph { nodes, handle_to_index, offsets, neighbors };
            assert(g.handle_to_index@ == self.handle_to_index@);
            assert forall|h: NodeHandle| #[trigger] g.locate(h) == self.locate(h) by {}
            assert(g.packed());
        }
        DiffusionGraph { nodes, handle_to_index, offsets, neighbors }
    }
}

impl DiffusionGraph {
    /// The nodes, in the order the graph was validated with.
    pub closed spec fn node_seq(self) -> Seq<GraphNode> {
        self.nodes@
    }

    /// Neighbor positions of the node at position `i`, ascending.
    pub closed spec fn row(self, i: int) -> Seq<u32> {
        self.neighbors@.subrange(self.offsets@[i] as int, self.offsets@[i + 1] as int)
    }

    /// Position of the node with `handle`, if any.
    pub closed spec fn locate(self, handle: NodeHandle) -> Option<int> {
        if self.handle_to_index@.contains_key(handle.0) {
            Some(self.handle_to_index@[handle.0] as int)
        } else {
            None
        }
    }

    /// Internal consistency: handles are unique and indexed, the offsets delimit one
    /// ascending row of in-range neighbor positions per node.
    #[verifier::type_invariant]
    closed spec fn packed(self) -> bool {
        let n = self.nodes@.len();
        &&& n <= u32::MAX + 1
        &&& self.offsets@.len() == n + 1
        &&& self.offsets@[0] == 0
        &&& self.offsets@[n as int] == self.neighbors@.len()
        &&& forall|i: int| 0 <= i < n ==> self.offsets@[i] <= #[trigger] self.offsets@[i + 1]
        &&& forall|k: int| 0 <= k < self.neighbors@.len() ==> #[trigger] self.neighbors@[k] < n
        &&& forall|h: NodeHandle| #[trigger] self.locate(h) matches Some(i) ==> 0 <= i < n
            && self.nodes@[i].handle == h
        &&& forall|i: int| 0 <= i < n ==> self.locate(#[trigger] self.nodes@[i].handle) == Some(i)
    }

    /// Number of nodes.
    pub fn node_count(&self) -> (r: usize)
        ensures
            r == self.node_seq().len(),
    {
        self.nodes.len()
    }

    /// Number of neighbors of the node with `handle`, if the graph has it.
    pub fn degree(&self, handle: NodeHandle) -> (r: Option<u32>)
        ensures
            match self.locate(handle) {
                Some(i) => r == Some(self.row(i).len() as u32),
                None => r is None,
            },
    {
        broadcast use vstd::std_specs::hash::group_hash_axioms;

        proof {
            use_type_invariant(self);
        }
        let index = match self.handle_to_index.get(&handle.0) {
            Some(index) => *index as usize,
            None => {
                return None;
            },
        };
        let bound = self.offsets.len();
        proof {
            assert(self.locate(handle) == Some(index as int));
            self.lemma_offsets_ordered(index as int, index as int + 1);
            self.lemma_offsets_ordered(index as int + 1, self.nodes@.len() as int);
        }
        Some(self.offsets[index + 1] - self.offsets[index])
    }

    /// Neighbor positions of the node at position `index`, ascending.
    pub fn neighbor_indices(&self, index: usize) -> (r: &[u32])
        requires
            index < self.node_seq().len(),
        ensures
            r@ == self.row(index as int),
    {
        proof {
            use_type_invariant(self);
            self.lemma_offsets_ordered(index as int, index as int + 1);
            self.lemma_offsets_ordered(index as int + 1, self.nodes@.len() as int);
        }
        let bound = self.offsets.len();
        let start = self.offsets[index] as usize;
        let end = self.offsets[index + 1] as usize;
        slice_subrange(self.neighbors.as_slice(), start, end)
    }

    /// Offsets never decrease.
    proof fn lemma_offsets_ordered(self, a: int, b: int)
        requires
            self.packed(),
            0 <= a <= b <= self.nodes@.len(),
        ensures
            self.offsets@[a] <= self.offsets@[b],
        decreases b - a,
    {
        if a < b {
            let c = b - 1;
            self.lemma_offsets_ordered(a, c);
            assert(self.offsets@[c] <= self.offsets@[c + 1]);
        }
    }
}

/// The error that node `i` raises once every earlier node passed, if any: a node needs a
/// mixture, a position that fits in 32 bits, and a handle no earlier node has.
pub open spec fn node_fault(nodes: Seq<GraphNode>, i: int) -> Option<GraphValidationError> {
    if nodes[i].mixture is None {
        Some(GraphValidationError::MissingMixture(nodes[i].handle))
    } else if i > u32::MAX {
        Some(GraphValidationError::HandleSpaceExceeded)
    } else if has_handle(nodes.take(i), nodes[i].handle) {
        Some(GraphValidationError::DuplicateNode(nodes[i].handle))
    } else {
        None
    }
}

/// Whether every node passes.
pub open spec fn nodes_valid(nodes: Seq<GraphNode>) -> bool {
    forall|i: int| 0 <= i < nodes.len() ==> #[trigger] node_fault(nodes, i) is None
}

/// Whether node `i` is the first that fails.
pub open spec fn first_node_fault(nodes: Seq<GraphNode>, i: int) -> bool {
    &&& 0 <= i < nodes.len()
    &&& node_fault(nodes, i) is Some
    &&& forall|j: int| 0 <= j < i ==> #[trigger] node_fault(nodes, j) is None
}

/// Indexes the nodes by handle, checking each node in order.
fn index_nodes(nodes: &[GraphNode]) -> (r: Result<HashMap<u32, u32>, GraphValidationError>)
    ensures
        match r {
            Ok(map) => {
                &&& nodes_valid(nodes@)
                &&& forall|h: NodeHandle| #[trigger] map@.contains_key(h.0) == has_handle(nodes@, h)
                &&& forall|i: int| 0 <= i < nodes@.len() ==> map@[(#[trigger] nodes@[i]).handle.0] == i
            },
            Err(e) => exists|i: int| #[trigger] first_node_fault(nodes@, i) && e == node_fault(nodes@, i)->0,
        },
{
    broadcast use vstd::std_specs::hash::group_hash_axioms;

    let mut map: HashMap<u32, u32> = HashMap::new();
    let mut index: usize = 0;
    while index < nodes.len()
        invariant
            index <= nodes@.len(),
            forall|j: int| 0 <= j < index ==> #[trigger] node_fault(nodes@, j) is None,
            forall|h: NodeHandle| #[trigger] map@.contains_key(h.0) == has_handle(nodes@.take(index as int), h),
            forall|j: int| 0 <= j < index ==> map@[(#[trigger] nodes@[j]).handle.0] == j,
        decreases nodes@.len() - index,
    {
        let node = nodes[index];
        if node.mixture.is_none() {
            proof {
                assert(first_node_fault(nodes@, index as int));
            }
            return Err(GraphValidationError::MissingMixture(node.handle));
        }
        if index > u32::MAX as usize {
            proof {
                assert(first_node_fault(nodes@, index as int));
            }
            return Err(GraphValidationError::HandleSpaceExceeded);
        }
        let ghost before = map@;
        let previous = map.insert(node.handle.0, index as u32);
        if previous.is_some() {
            proof {
                assert(before.contains_key(node.handle.0));
                assert(first_node_fault(nodes@, index as int));
            }
            return Err(GraphValidationError::DuplicateNode(node.handle));
        }
        proof {
            let shorter = nodes@.take(index as int);
            let longer = nodes@.take(index as int + 1);
            assert(!has_handle(shorter, node.handle)) by {
                assert(!before.contains_key(node.handle.0));
            }
            assert(node_fault(nodes@, index as int) is None);
            assert forall|h: NodeHandle| #[trigger] map@.contains_key(h.0) == has_handle(longer, h) by {
                assert(before.contains_key(h.0) == has_handle(shorter, h));
                if has_handle(longer, h) && h != node.handle {
                    let k = choose|k: int| 0 <= k < longer.len() && (#[trigger] longer[k]).handle == h;
                    assert(shorter[k] == longer[k]);
                }
                if has_handle(shorter, h) {
                    let k = choose|k: int| 0 <= k < shorter.len() && (#[trigger] shorter[k]).handle == h;
                    assert(longer[k] == shorter[k]);
                }
                if h == node.handle {
                    assert(longer[index as int] == node);
                }
            }
            assert forall|j: int| 0 <= j < index + 1 implies map@[(#[trigger] nodes@[j]).handle.0] == j by {
                if j < index {
                    assert(shorter[j] == nodes@[j]);
                    assert(has_handle(shorter, nodes@[j].handle));
                }
            }
        }
        index += 1;
    }
    proof {
        assert(nodes@.take(index as int) =~= nodes@);
    }
    Ok(map)
}

/// A unique 64-bit key for an edge; keys order edges by source, then by target.
pub open spec fn edge_key(e: DirectedEdge) -> u64 {
    (e.from.0 as u64 * 0x1_0000_0000 + e.to.0 as u64) as u64
}

/// Executable form of [`edge_key`].
fn edge_key_of(e: DirectedEdge) -> (r: u64)
    ensures
        r == edge_key(e),
{
    e.from.0 as u64 * 0x1_0000_0000 + e.to.0 as u64
}

/// The error that edge `j` raises once every earlier edge passed, if any: both ends must be
/// known nodes, the ends must differ, and no earlier edge may be the same.
pub open spec fn edge_fault(nodes: Seq<GraphNode>, edges: Seq<DirectedEdge>, j: int) -> Option<
    GraphValidationError,
> {
    let e = edges[j];
    if !has_handle(nodes, e.from) {
        Some(GraphValidationError::UnknownNode(e.from))
    } else if !has_handle(nodes, e.to) {
        Some(GraphValidationError::UnknownNode(e.to))
    } else if e.from == e.to {
        Some(GraphValidationError::SelfEdge(e.from))
    } else if edges.take(j).contains(e) {
        Some(GraphValidationError::DuplicateEdge { from: e.from, to: e.to })
    } else {
        None
    }
}

/// Whether every edge passes.
pub open spec fn edges_valid(nodes: Seq<GraphNode>, edges: Seq<DirectedEdge>) -> bool {
    forall|j: int| 0 <= j < edges.len() ==> #[trigger] edge_fault(nodes, edges, j) is None
}

/// Whether edge `j` is the first that fails.
pub open spec fn first_edge_fault(nodes: Seq<GraphNode>, edges: Seq<DirectedEdge>, j: int) -> bool {
    &&& 0 <= j < edges.len()
    &&& edge_fault(nodes, edges, j) is Some
    &&& forall|k: int| 0 <= k < j ==> #[trigger] edge_fault(nodes, edges, k) is None
}

/// Checks each edge in order and collects the keys of all edges.
fn check_edges(nodes: &[GraphNode], map: &HashMap<u32, u32>, edges: &[DirectedEdge]) -> (r: Result<
    HashSet<u64>,
    GraphValidationError,
>)
    requires
        forall|h: NodeHandle| #[trigger] map@.contains_key(h.0) == has_handle(nodes@, h),
    ensures
        match r {
            Ok(keys) => {
                &&& edges_valid(nodes@, edges@)
                &&& forall|e: DirectedEdge| #[trigger] keys@.contains(edge_key(e)) == edges@.contains(e)
            },
            Err(e) => exists|j: int| #[trigger]
                first_edge_fault(nodes@, edges@, j) && e == edge_fault(nodes@, edges@, j)->0,
        },
{
    broadcast use vstd::std_specs::hash::group_hash_axioms;

    let mut keys: HashSet<u64> = HashSet::new();
    let mut index: usize = 0;
    while index < edges.len()
        invariant
            index <= edges@.len(),
            forall|h: NodeHandle| #[trigger] map@.contains_key(h.0) == has_handle(nodes@, h),
            forall|k: int| 0 <= k < index ==> #[trigger] edge_fault(nodes@, edges@, k) is None,
            forall|e: DirectedEdge| #[trigger] keys@.contains(edge_key(e)) == edges@.take(index as int).contains(e),
        decreases edges@.len() - index,
    {
        let edge = edges[index];
        if !map.contains_key(&edge.from.0) {
            proof {
                assert(first_edge_fault(nodes@, edges@, index as int));
            }
            return Err(GraphValidationError::UnknownNode(edge.from));
        }
        if !map.contains_key(&edge.to.0) {
            proof {
                assert(first_edge_fault(nodes@, edges@, index as int));
            }
            return Err(GraphValidationError::UnknownNode(edge.to));
        }
        if edge.from.0 == edge.to.0 {
            proof {
                assert(first_edge_fault(nodes@, edges@, index as int));
            }
            return Err(GraphValidationError::SelfEdge(edge.from));
        }
        let ghost before = keys@;
        if !keys.insert(edge_key_of(edge)) {
            proof {
                assert(before.contains(edge_key(edge)));
                assert(first_edge_fault(nodes@, edges@, index as int));
            }
            return Err(GraphValidationError::DuplicateEdge { from: edge.from, to: edge.to });
        }
        proof {
            let shorter = edges@.take(index as int);
            let longer = edges@.take(index as int + 1);
            assert(longer =~= shorter.push(edge));
            assert(!before.contains(edge_key(edge)));
            assert(edge_fault(nodes@, edges@, index as int) is None);
            assert forall|e: DirectedEdge| #[trigger] keys@.contains(edge_key(e)) == longer.contains(e) by {
                assert(before.contains(edge_key(e)) == shorter.contains(e));
                if longer.contains(e) && e != edge {
                    let k = choose|k: int| 0 <= k < longer.len() && #[trigger] longer[k] == e;
                    assert(shorter[k] == e);
                }
                if shorter.contains(e) {
                    let k = choose|k: int| 0 <= k < shorter.len() && #[trigger] shorter[k] == e;
                    assert(longer[k] == e);
                }
                if e == edge {
                    assert(longer[index as int] == e);
                }
            }
        }
        index += 1;
    }
    proof {
        assert(edges@.take(index as int) =~= edges@);
    }
    Ok(keys)
}

/// The edge in the opposite direction.
pub open spec fn reversed(e: DirectedEdge) -> DirectedEdge {
    DirectedEdge { from: e.to, to: e.from }
}

/// Whether edge `j` has no edge in the opposite direction.
pub open spec fn unreciprocated(edges: Seq<DirectedEdge>, j: int) -> bool {
    0 <= j < edges.len() && !edges.contains(reversed(edges[j]))
}

/// Whether edge `j` is the smallest edge, by source and then target, without an edge in
/// the opposite direction.
pub open spec fn least_unreciprocated(edges: Seq<DirectedEdge>, j: int) -> bool {
    &&& unreciprocated(edges, j)
    &&& forall|k: int| #[trigger] unreciprocated(edges, k) ==> edge_key(edges[j]) <= edge_key(edges[k])
}

/// The smallest edge, by source and then target, without an edge in the opposite direction.
fn least_unreciprocated_edge(edges: &[DirectedEdge], keys: &HashSet<u64>) -> (r: Option<DirectedEdge>)
    requires
        forall|e: DirectedEdge| #[trigger] keys@.contains(edge_key(e)) == edges@.contains(e),
    ensures
        match r {
            Some(e) => exists|j: int| #[trigger] least_unreciprocated(edges@, j) && edges@[j] == e,
            None => forall|j: int| !#[trigger] unreciprocated(edges@, j),
        },
{
    broadcast use vstd::std_specs::hash::group_hash_axioms;

    let mut least: Option<DirectedEdge> = None;
    let mut index: usize = 0;
    while index < edges.len()
        invariant
            index <= edges@.len(),
            forall|e: DirectedEdge| #[trigger] keys@.contains(edge_key(e)) == edges@.contains(e),
            match least {
                Some(e) => exists|j: int|
                    0 <= j < index && #[trigger] unreciprocated(edges@, j) && edges@[j] == e && forall|k: int|
                        0 <= k < index && #[trigger] unreciprocated(edges@, k) ==> edge_key(e) <= edge_key(edges@[k]),
                None => forall|k: int| 0 <= k < index ==> !#[trigger] unreciprocated(edges@, k),
            },
        decreases edges@.len() - index,
    {
        let edge = edges[index];
        let back = DirectedEdge { from: edge.to, to: edge.from };
        if !keys.contains(&edge_key_of(back)) {
            proof {
                assert(unreciprocated(edges@, index as int));
            }
            let replace = match least {
                Some(current) => edge_key_of(edge) < edge_key_of(current),
                None => true,
            };
            if replace {
                least = Some(edge);
            }
        }
        index += 1;
    }
    proof {
        if let Some(e) = least {
            let j = choose|j: int|
                0 <= j < index && #[trigger] unreciprocated(edges@, j) && edges@[j] == e && forall|k: int|
                    0 <= k < index && #[trigger] unreciprocated(edges@, k) ==> edge_key(e) <= edge_key(edges@[k]);
            assert(least_unreciprocated(edges@, j));
        }
    }
    least
}

/// Whether an edge leaves the node with `handle`.
pub open spec fn leaving(handle: NodeHandle) -> spec_fn(DirectedEdge) -> bool {
    |e: DirectedEdge| e.from == handle
}

/// Number of edges of `edges` that leave the node with `handle`.
pub open spec fn out_degree(edges: Seq<DirectedEdge>, handle: NodeHandle) -> nat {
    edges.filter(leaving(handle)).len()
}

/// Counts, for each node, the edges that leave it.
fn count_degrees(nodes: &[GraphNode], map: &HashMap<u32, u32>, edges: &[DirectedEdge]) -> (r: Vec<u64>)
    requires
        forall|h: NodeHandle| #[trigger] map@.contains_key(h.0) == has_handle(nodes@, h),
        forall|i: int| 0 <= i < nodes@.len() ==> map@[(#[trigger] nodes@[i]).handle.0] == i,
        edges_valid(nodes@, edges@),
    ensures
        r@.len() == nodes@.len(),
        forall|i: int| 0 <= i < nodes@.len() ==> #[trigger] r@[i] == out_degree(edges@, nodes@[i].handle),
{
    broadcast use vstd::std_specs::hash::group_hash_axioms;

    let mut degrees: Vec<u64> = Vec::new();
    let mut filled: usize = 0;
    while filled < nodes.len()
        invariant
            filled <= nodes@.len(),
            degrees@.len() == filled,
            forall|i: int| 0 <= i < filled ==> #[trigger] degrees@[i] == 0,
        decreases nodes@.len() - filled,
    {
        degrees.push(0);
        filled += 1;
    }
    let mut index: usize = 0;
    while index < edges.len()
        invariant
            index <= edges@.len(),
            degrees@.len() == nodes@.len(),
            forall|h: NodeHandle| #[trigger] map@.contains_key(h.0) == has_handle(nodes@, h),
            forall|i: int| 0 <= i < nodes@.len() ==> map@[(#[trigger] nodes@[i]).handle.0] == i,
            edges_valid(nodes@, edges@),
            forall|i: int| 0 <= i < nodes@.len() ==> #[trigger] degrees@[i] == edges@.take(index as int).filter(
                leaving(nodes@[i].handle),
            ).len(),
            forall|i: int| 0 <= i < nodes@.len() ==> #[trigger] degrees@[i] <= index,
        decreases edges@.len() - index,
    {
        let edge = edges[index];
        proof {
            assert(edge_fault(nodes@, edges@, index as int) is None);
            assert(map@.contains_key(edge.from.0));
        }
        let from = *map.get(&edge.from.0).unwrap() as usize;
        proof {
            let k = choose|k: int| 0 <= k < nodes@.len() && (#[trigger] nodes@[k]).handle == edge.from;
            assert(map@[nodes@[k].handle.0] == k);
            assert(from == k);
        }
        let ghost before = degrees@;
        let count = degrees[from];
        degrees.set(from, count + 1);
        proof {
            let shorter = edges@.take(index as int);
            assert(edges@.take(index as int + 1) =~= shorter.push(edge));
            assert forall|i: int| 0 <= i < nodes@.len() implies #[trigger] degrees@[i] == edges@.take(
                index as int + 1,
            ).filter(leaving(nodes@[i].handle)).len() by {
                shorter.lemma_filter_push(edge, leaving(nodes@[i].handle));
                if nodes@[i].handle == edge.from {
                    assert(map@[nodes@[i].handle.0] == i);
                }
                assert(before[i] == shorter.filter(leaving(nodes@[i].handle)).len());
            }
        }
        index += 1;
    }
    proof {
        assert(edges@.take(index as int) =~= edges@);
    }
    degrees
}

/// Sum of the first `i` entries of `s`.
pub open spec fn running(s: Seq<int>, i: int) -> int
    decreases i,
{
    if i <= 0 || i > s.len() {
        0
    } else {
        running(s, i - 1) + s[i - 1]
    }
}

/// The out-degree of every node, in node order.
pub open spec fn degree_seq(nodes: Seq<GraphNode>, edges: Seq<DirectedEdge>) -> Seq<int> {
    Seq::new(nodes.len(), |i: int| out_degree(edges, nodes[i].handle) as int)
}

/// Running sums of non-negative entries never decrease.
proof fn lemma_running_monotone(s: Seq<int>, a: int, b: int)
    requires
        0 <= a <= b <= s.len(),
        forall|i: int| 0 <= i < s.len() ==> #[trigger] s[i] >= 0,
    ensures
        running(s, a) <= running(s, b),
    decreases b - a,
{
    if a < b {
        lemma_running_monotone(s, a, b - 1);
    }
}

/// The start of each node's row: running sums of `degrees`, refused when the total does not
/// fit in 32 bits.
fn prefix_offsets(degrees: &Vec<u64>) -> (r: Option<Vec<u32>>)
    requires
        forall|i: int| 0 <= i < degrees@.len() ==> #[trigger] degrees@[i] <= MAX_CARDINAL_NEIGHBORS,
    ensures
        match r {
            Some(offsets) => {
                &&& running(degrees@.map_values(|d: u64| d as int), degrees@.len() as int) <= u32::MAX
                &&& offsets@.len() == degrees@.len() + 1
                &&& forall|i: int| 0 <= i <= degrees@.len() ==> #[trigger] offsets@[i] == running(
                    degrees@.map_values(|d: u64| d as int),
                    i,
                )
            },
            None => running(degrees@.map_values(|d: u64| d as int), degrees@.len() as int) > u32::MAX,
        },
{
    let ghost ints = degrees@.map_values(|d: u64| d as int);
    let mut offsets: Vec<u32> = Vec::new();
    offsets.push(0);
    let mut total: u32 = 0;
    let mut index: usize = 0;
    while index < degrees.len()
        invariant
            ints == degrees@.map_values(|d: u64| d as int),
            forall|i: int| 0 <= i < degrees@.len() ==> #[trigger] degrees@[i] <= MAX_CARDINAL_NEIGHBORS,
            index <= degrees@.len(),
            offsets@.len() == index + 1,
            total == running(ints, index as int),
            forall|i: int| 0 <= i <= index ==> #[trigger] offsets@[i] == running(ints, i),
        decreases degrees@.len() - index,
    {
        let degree = degrees[index] as u32;
        proof {
            assert(ints[index as int] == degree);
        }
        match total.checked_add(degree) {
            Some(next) => {
                total = next;
                offsets.push(total);
            },
            None => {
                proof {
                    assert forall|i: int| 0 <= i < ints.len() implies #[trigger] ints[i] >= 0 by {}
                    lemma_running_monotone(ints, index as int + 1, ints.len() as int);
                }
                return None;
            },
        }
        index += 1;
    }
    Some(offsets)
}

/// Inserts `value` into the ascending run of `len` entries starting at `start`, shifting the
/// larger entries one place right into the entry just past the run.
fn insert_in_row(neighbors: &mut Vec<u32>, start: usize, len: usize, value: u32)
    requires
        start + len < old(neighbors)@.len(),
        strictly_increasing(old(neighbors)@.subrange(start as int, start + len)),
        !old(neighbors)@.subrange(start as int, start + len).contains(value),
    ensures
        final(neighbors)@.len() == old(neighbors)@.len(),
        forall|k: int| 0 <= k < old(neighbors)@.len() && !(start <= k <= start + len)
            ==> #[trigger] final(neighbors)@[k] == old(neighbors)@[k],
        strictly_increasing(final(neighbors)@.subrange(start as int, start + len + 1)),
        forall|x: u32| #[trigger] final(neighbors)@.subrange(start as int, start + len + 1).contains(x)
            == (old(neighbors)@.subrange(start as int, start + len).contains(x) || x == value),
{
    let ghost original = neighbors@;
    let bound = neighbors.len();
    let end = start + len;
    let mut position = end;
    while position > start && neighbors[position - 1] > value
        invariant
            start <= position <= end,
            end == start + len,
            end < original.len(),
            neighbors@.len() == original.len(),
            strictly_increasing(original.subrange(start as int, end as int)),
            forall|k: int| 0 <= k < original.len() && !(start <= k <= end) ==> #[trigger] neighbors@[k] == original[k],
            forall|k: int| start <= k <= position ==> #[trigger] neighbors@[k] == original[k],
            forall|k: int| position < k <= end ==> #[trigger] neighbors@[k] == original[k - 1],
            forall|k: int| position <= k < end ==> #[trigger] original[k] > value,
        decreases position - start,
    {
        proof {
            assert(original[position - 1] == original.subrange(start as int, end as int)[position - 1 - start]);
        }
        let moved = neighbors[position - 1];
        neighbors.set(position, moved);
        position -= 1;
    }
    neighbors.set(position, value);
    proof {
        let run = original.subrange(start as int, end as int);
        let grown = neighbors@.subrange(start as int, end + 1);
        assert(!run.contains(value));
        assert forall|k: int| start <= k < position implies #[trigger] original[k] < value by {
            assert(original[k] == run[k - start]);
            if position > start {
                assert(original[position - 1] == run[position - 1 - start]);
                assert(original[position - 1] <= value);
                if original[position - 1] == value {
                    assert(run.contains(value));
                }
            }
        }
        assert forall|a: int, b: int| 0 <= a < b < grown.len() implies grown[a] < grown[b] by {
            let ka = a + start;
            let kb = b + start;
            if kb < position {
                assert(grown[a] == run[a] && grown[b] == run[b]);
            } else if kb == position {
                assert(grown[a] == original[ka]);
            } else if ka < position {
                assert(grown[a] == original[ka]);
                assert(grown[b] == original[kb - 1]);
            } else if ka == position {
                assert(grown[b] == original[kb - 1]);
            } else {
                assert(grown[a] == run[a - 1] && grown[b] == run[b - 1]);
            }
        }
        assert forall|x: u32| #[trigger] grown.contains(x) == (run.contains(x) || x == value) by {
            if grown.contains(x) {
                let g = choose|g: int| 0 <= g < grown.len() && #[trigger] grown[g] == x;
                if g + start < position {
                    assert(run[g] == x);
                } else if g + start > position {
                    assert(run[g - 1] == x);
                }
            }
            if run.contains(x) {
                let g = choose|g: int| 0 <= g < run.len() && #[trigger] run[g] == x;
                if g + start < position {
                    assert(grown[g] == x);
                } else {
                    assert(grown[g + 1] == x);
                }
            }
            if x == value {
                assert(grown[position - start] == x);
            }
        }
    }
}

/// Whether `row` lists, ascending, exactly the positions of the nodes that `edges` links the
/// node at position `i` to.
pub open spec fn row_matches(nodes: Seq<GraphNode>, edges: Seq<DirectedEdge>, i: int, row: Seq<u32>) -> bool {
    &&& strictly_increasing(row)
    &&& forall|x: u32| #[trigger] row.contains(x) == linked(nodes, edges, i, x as int)
}

/// The first `k` entries of two strictly increasing sequences with the same members agree.
proof fn lemma_increasing_prefix(x: Seq<u32>, y: Seq<u32>, k: int)
    requires
        strictly_increasing(x),
        strictly_increasing(y),
        forall|v: u32| #[trigger] x.contains(v) == y.contains(v),
        0 <= k <= x.len(),
        k <= y.len(),
    ensures
        forall|i: int| #![trigger x[i]] #![trigger y[i]] 0 <= i < k ==> x[i] == y[i],
    decreases k,
{
    if k > 0 {
        lemma_increasing_prefix(x, y, k - 1);
        let i = k - 1;
        assert(x.contains(x[i]));
        let p = choose|p: int| 0 <= p < y.len() && y[p] == x[i];
        if p < i {
            assert(x[p] == y[p]);
            assert(false);
        } else if p > i {
            assert(y.contains(y[i]));
            assert(x.contains(y[i]));
            let q = choose|q: int| 0 <= q < x.len() && x[q] == y[i];
            if q < i {
                assert(x[q] == y[q]);
                assert(false);
            } else if q == i {
                assert(false);
            } else {
                assert(x[i] < x[q]);
                assert(false);
            }
        }
    }
}

/// Two strictly increasing sequences with the same members are equal.
proof fn lemma_increasing_unique(x: Seq<u32>, y: Seq<u32>)
    requires
        strictly_increasing(x),
        strictly_increasing(y),
        forall|v: u32| #[trigger] x.contains(v) == y.contains(v),
    ensures
        x == y,
{
    if x.len() <= y.len() {
        lemma_increasing_prefix(x, y, x.len() as int);
        if x.len() < y.len() {
            let k = x.len() as int;
            assert(y.contains(y[k]));
            assert(x.contains(y[k]));
            let p = choose|p: int| 0 <= p < x.len() && x[p] == y[k];
            assert(x[p] == y[p]);
            assert(false);
        }
    } else {
        lemma_increasing_prefix(y, x, y.len() as int);
        let k = y.len() as int;
        assert(x.contains(x[k]));
        assert(y.contains(x[k]));
        let p = choose|p: int| 0 <= p < y.len() && y[p] == x[k];
        assert(x[p] == y[p]);
        assert(false);
    }
    assert(x =~= y);
}

/// The row a validated graph gives a node does not depend on the order of the edges: two
/// edge lists with the same edges give each node the same row.
pub proof fn lemma_rows_ignore_edge_order(
    nodes: Seq<GraphNode>,
    first: Seq<DirectedEdge>,
    second: Seq<DirectedEdge>,
    i: int,
    first_row: Seq<u32>,
    second_row: Seq<u32>,
)
    requires
        forall|e: DirectedEdge| #[trigger] first.contains(e) == second.contains(e),
        row_matches(nodes, first, i, first_row),
        row_matches(nodes, second, i, second_row),
    ensures
        first_row == second_row,
{
    assert forall|v: u32| #[trigger] first_row.contains(v) == second_row.contains(v) by {
        assert(linked(nodes, first, i, v as int) == linked(nodes, second, i, v as int));
    }
    lemma_increasing_unique(first_row, second_row);
}

/// Filtering a sequence keeps exactly the filtered part of its multiset.
proof fn lemma_filter_multiset(s: Seq<DirectedEdge>, p: spec_fn(DirectedEdge) -> bool)
    ensures
        s.filter(p).to_multiset() =~= s.to_multiset().filter(p),
    decreases s.len(),
{
    broadcast use vstd::seq_lib::group_to_multiset_ensures;
    broadcast use vstd::multiset::group_multiset_axioms;

    if s.len() == 0 {
        s.filter_lemma(p);
        assert(s.filter(p) =~= s);
        assert forall|v: DirectedEdge| #[trigger] s.filter(p).to_multiset().count(v) == s.to_multiset().filter(p).count(v) by {
            vstd::seq_lib::to_multiset_contains(s, v);
            assert(!s.contains(v));
        }
    } else {
        let t = s.drop_last();
        let last = s.last();
        lemma_filter_multiset(t, p);
        assert(s =~= t.push(last));
        assert(s.to_multiset() =~= t.to_multiset().insert(last));
        t.lemma_filter_push(last, p);
        if p(last) {
            assert(s.filter(p) == t.filter(p).push(last));
            assert(s.filter(p).to_multiset() =~= t.filter(p).to_multiset().insert(last));
        } else {
            assert(s.filter(p) == t.filter(p));
        }
        assert forall|v: DirectedEdge| #[trigger] s.filter(p).to_multiset().count(v) == s.to_multiset().filter(p).count(v) by {
            assert(t.filter(p).to_multiset().count(v) == t.to_multiset().filter(p).count(v));
        }
    }
    assert(s.filter(p).to_multiset() =~= s.to_multiset().filter(p));
}

/// Whether edge `e` joins two known nodes and is no self edge.
pub open spec fn edge_ok(nodes: Seq<GraphNode>, e: DirectedEdge) -> bool {
    has_handle(nodes, e.from) && has_handle(nodes, e.to) && e.from != e.to
}

/// The edge checks pass exactly when every edge joins two known nodes, none is a self edge,
/// and no edge is listed twice.
proof fn lemma_edges_valid_shape(nodes: Seq<GraphNode>, edges: Seq<DirectedEdge>)
    ensures
        edges_valid(nodes, edges) <==> ((forall|x: DirectedEdge| edges.contains(x) ==> #[trigger] edge_ok(nodes, x))
            && edges.no_duplicates()),
{
    if edges_valid(nodes, edges) {
        assert forall|x: DirectedEdge| edges.contains(x) implies #[trigger] edge_ok(nodes, x) by {
            let j = choose|j: int| 0 <= j < edges.len() && edges[j] == x;
            assert(edge_fault(nodes, edges, j) is None);
        }
        assert forall|i: int, j: int| 0 <= i < edges.len() && 0 <= j < edges.len() && i != j implies edges[i] != edges[j] by {
            if edges[i] == edges[j] {
                if i < j {
                    assert(edges.take(j)[i] == edges[j]);
                    assert(edges.take(j).contains(edges[j]));
                    assert(edge_fault(nodes, edges, j) is None);
                } else {
                    assert(edges.take(i)[j] == edges[i]);
                    assert(edges.take(i).contains(edges[i]));
                    assert(edge_fault(nodes, edges, i) is None);
                }
            }
        }
    }
    if (forall|x: DirectedEdge| edges.contains(x) ==> #[trigger] edge_ok(nodes, x)) && edges.no_duplicates() {
        assert forall|j: int| 0 <= j < edges.len() implies #[trigger] edge_fault(nodes, edges, j) is None by {
            assert(edges.contains(edges[j]));
            assert(edge_ok(nodes, edges[j]));
            if edges.take(j).contains(edges[j]) {
                let i = choose|i: int| 0 <= i < edges.take(j).len() && edges.take(j)[i] == edges[j];
                assert(edges[i] == edges[j]);
            }
        }
    }
}

/// Whether [`validate_graph`] accepts `nodes` and `edges`.
pub open spec fn graph_accepted(nodes: Seq<GraphNode>, edges: Seq<DirectedEdge>) -> bool {
    &&& nodes_valid(nodes)
    &&& edges_valid(nodes, edges)
    &&& reciprocal(edges)
    &&& forall|i: int| !#[trigger] overloaded(nodes, edges, i)
    &&& running(degree_seq(nodes, edges), nodes.len() as int) <= u32::MAX
}

/// Whether a node and edge list is accepted, and every node's degree, do not depend on the
/// order of the edges.
pub proof fn lemma_acceptance_ignores_edge_order(
    nodes: Seq<GraphNode>,
    first: Seq<DirectedEdge>,
    second: Seq<DirectedEdge>,
)
    requires
        first.to_multiset() == second.to_multiset(),
    ensures
        forall|h: NodeHandle| #[trigger] out_degree(first, h) == out_degree(second, h),
        graph_accepted(nodes, first) == graph_accepted(nodes, second),
{
    broadcast use vstd::seq_lib::group_to_multiset_ensures;
    broadcast use vstd::multiset::group_multiset_axioms;

    assert forall|x: DirectedEdge| #![trigger first.contains(x)] #![trigger second.contains(x)] first.contains(x) == second.contains(x) by {
        vstd::seq_lib::to_multiset_contains(first, x);
        vstd::seq_lib::to_multiset_contains(second, x);
        assert(first.to_multiset().count(x) == second.to_multiset().count(x));
    }
    assert forall|h: NodeHandle| #[trigger] out_degree(first, h) == out_degree(second, h) by {
        lemma_filter_multiset(first, leaving(h));
        lemma_filter_multiset(second, leaving(h));
        assert(first.filter(leaving(h)).to_multiset().len() == second.filter(leaving(h)).to_multiset().len());
    }
    assert(degree_seq(nodes, first) =~= degree_seq(nodes, second));
    lemma_edges_valid_shape(nodes, first);
    lemma_edges_valid_shape(nodes, second);
    if first.no_duplicates() {
        first.lemma_multiset_has_no_duplicates();
        assert forall|x: DirectedEdge| second.to_multiset().contains(x) implies second.to_multiset().count(x) == 1 by {
            assert(first.to_multiset().count(x) == second.to_multiset().count(x));
        }
        second.lemma_multiset_has_no_duplicates_conv();
    }
    if second.no_duplicates() {
        second.lemma_multiset_has_no_duplicates();
        assert forall|x: DirectedEdge| first.to_multiset().contains(x) implies first.to_multiset().count(x) == 1 by {
            assert(first.to_multiset().count(x) == second.to_multiset().count(x));
        }
        first.lemma_multiset_has_no_duplicates_conv();
    }
    assert(reciprocal(first) == reciprocal(second)) by {
        if reciprocal(first) {
            assert forall|j: int| !#[trigger] unreciprocated(second, j) by {
                if 0 <= j < second.len() {
                    assert(second.contains(second[j]));
                    let i = choose|i: int| 0 <= i < first.len() && first[i] == second[j];
                    assert(!unreciprocated(first, i));
                }
            }
        }
        if reciprocal(second) {
            assert forall|j: int| !#[trigger] unreciprocated(first, j) by {
                if 0 <= j < first.len() {
                    assert(first.contains(first[j]));
                    let i = choose|i: int| 0 <= i < second.len() && second[i] == first[j];
                    assert(!unreciprocated(second, i));
                }
            }
        }
    }
    assert forall|i: int| #[trigger] overloaded(nodes, first, i) == overloaded(nodes, second, i) by {
        if 0 <= i < nodes.len() {
            assert(out_degree(first, nodes[i].handle) == out_degree(second, nodes[i].handle));
        }
    }
    if forall|i: int| !#[trigger] overloaded(nodes, first, i) {
        assert forall|i: int| !#[trigger] overloaded(nodes, second, i) by {
            assert(!overloaded(nodes, first, i));
        }
    }
    if forall|i: int| !#[trigger] overloaded(nodes, second, i) {
        assert forall|i: int| !#[trigger] overloaded(nodes, first, i) by {
            assert(!overloaded(nodes, second, i));
        }
    }
    assert(edges_valid(nodes, first) == edges_valid(nodes, second)) by {
        if forall|x: DirectedEdge| first.contains(x) ==> #[trigger] edge_ok(nodes, x) {
            assert forall|x: DirectedEdge| second.contains(x) implies #[trigger] edge_ok(nodes, x) by {
                assert(first.contains(x));
            }
        }
        if forall|x: DirectedEdge| second.contains(x) ==> #[trigger] edge_ok(nodes, x) {
            assert forall|x: DirectedEdge| first.contains(x) implies #[trigger] edge_ok(nodes, x) by {
                assert(second.contains(x));
            }
        }
    }
}

/// A longer prefix has at least as many entries that pass a filter.
proof fn lemma_filter_prefix(s: Seq<DirectedEdge>, j: int, k: int, keep: spec_fn(DirectedEdge) -> bool)
    requires
        0 <= j <= k <= s.len(),
    ensures
        s.take(j).filter(keep).len() <= s.take(k).filter(keep).len(),
    decreases k - j,
{
    if j < k {
        lemma_filter_prefix(s, j, k - 1, keep);
        assert(s.take(k) =~= s.take(k - 1).push(s[k - 1]));
        s.take(k - 1).lemma_filter_push(s[k - 1], keep);
    }
}

/// Places every edge's target in its source's row, keeping each row ascending.
fn place_neighbors(
    nodes: &[GraphNode],
    map: &HashMap<u32, u32>,
    edges: &[DirectedEdge],
    degrees: &Vec<u64>,
    offsets: &Vec<u32>,
) -> (r: Vec<u32>)
    requires
        forall|h: NodeHandle| #[trigger] map@.contains_key(h.0) == has_handle(nodes@, h),
        forall|i: int| 0 <= i < nodes@.len() ==> map@[(#[trigger] nodes@[i]).handle.0] == i,
        edges_valid(nodes@, edges@),
        degrees@.len() == nodes@.len(),
        forall|i: int| 0 <= i < nodes@.len() ==> #[trigger] degrees@[i] == out_degree(edges@, nodes@[i].handle),
        offsets@.len() == nodes@.len() + 1,
        forall|i: int| 0 <= i <= nodes@.len() ==> #[trigger] offsets@[i] == running(
            degrees@.map_values(|d: u64| d as int),
            i,
        ),
    ensures
        r@.len() == offsets@[nodes@.len() as int],
        forall|k: int| 0 <= k < r@.len() ==> #[trigger] r@[k] < nodes@.len(),
        forall|i: int| 0 <= i < nodes@.len() ==> #[trigger] row_matches(
            nodes@,
            edges@,
            i,
            r@.subrange(offsets@[i] as int, offsets@[i + 1] as int),
        ),
{
    broadcast use vstd::std_specs::hash::group_hash_axioms;

    let n = nodes.len();
    let ghost ints = degrees@.map_values(|d: u64| d as int);
    proof {
        assert forall|i: int| 0 <= i < ints.len() implies #[trigger] ints[i] >= 0 by {}
        lemma_running_monotone(ints, 0, n as int);
    }
    let total = offsets[n] as usize;
    let mut neighbors: Vec<u32> = Vec::new();
    let mut cursors: Vec<u64> = Vec::new();
    while neighbors.len() < total
        invariant
            neighbors@.len() <= total,
            total > 0 ==> n > 0,
            forall|k: int| 0 <= k < neighbors@.len() ==> #[trigger] neighbors@[k] == 0,
        decreases total - neighbors@.len(),
    {
        neighbors.push(0);
    }
    while cursors.len() < n
        invariant
            cursors@.len() <= n,
            forall|i: int| 0 <= i < cursors@.len() ==> #[trigger] cursors@[i] == 0,
        decreases n - cursors@.len(),
    {
        cursors.push(0);
    }
    proof {
        assert forall|i: int| 0 <= i < n implies #[trigger] row_matches(
            nodes@,
            edges@.take(0),
            i,
            neighbors@.subrange(offsets@[i] as int, offsets@[i] + cursors@[i]),
        ) by {
            lemma_running_monotone(ints, i, n as int);
            assert(edges@.take(0) =~= Seq::<DirectedEdge>::empty());
            assert(neighbors@.subrange(offsets@[i] as int, offsets@[i] + cursors@[i]) =~= Seq::<u32>::empty());
        }
        assert forall|i: int| 0 <= i < n implies #[trigger] cursors@[i] == edges@.take(0).filter(
            leaving(nodes@[i].handle),
        ).len() by {
            assert(edges@.take(0) =~= Seq::<DirectedEdge>::empty());
            reveal(Seq::filter);
        }
    }
    let mut index: usize = 0;
    while index < edges.len()
        invariant
            n == nodes@.len(),
            ints == degrees@.map_values(|d: u64| d as int),
            forall|i: int| 0 <= i < ints.len() ==> #[trigger] ints[i] >= 0,
            forall|h: NodeHandle| #[trigger] map@.contains_key(h.0) == has_handle(nodes@, h),
            forall|i: int| 0 <= i < nodes@.len() ==> map@[(#[trigger] nodes@[i]).handle.0] == i,
            edges_valid(nodes@, edges@),
            degrees@.len() == n,
            forall|i: int| 0 <= i < n ==> #[trigger] degrees@[i] == out_degree(edges@, nodes@[i].handle),
            offsets@.len() == n + 1,
            forall|i: int| 0 <= i <= n ==> #[trigger] offsets@[i] == running(ints, i),
            index <= edges@.len(),
            neighbors@.len() == total,
            total == offsets@[n as int],
            cursors@.len() == n,
            forall|i: int| 0 <= i < n ==> #[trigger] cursors@[i] == edges@.take(index as int).filter(
                leaving(nodes@[i].handle),
            ).len(),
            forall|k: int| 0 <= k < total ==> #[trigger] neighbors@[k] < n || n == 0,
            forall|i: int| 0 <= i < n ==> #[trigger] row_matches(
                nodes@,
                edges@.take(index as int),
                i,
                neighbors@.subrange(offsets@[i] as int, offsets@[i] + cursors@[i]),
            ),
        decreases edges@.len() - index,
    {
        let edge = edges[index];
        proof {
            assert(edge_fault(nodes@, edges@, index as int) is None);
        }
        let from = *map.get(&edge.from.0).unwrap() as usize;
        let to = *map.get(&edge.to.0).unwrap();
        let ghost shorter = edges@.take(index as int);
        proof {
            let k = choose|k: int| 0 <= k < n && (#[trigger] nodes@[k]).handle == edge.from;
            assert(map@[nodes@[k].handle.0] == k);
            let t = choose|t: int| 0 <= t < n && (#[trigger] nodes@[t]).handle == edge.to;
            assert(map@[nodes@[t].handle.0] == t);
            assert(edges@.take(index as int + 1) =~= shorter.push(edge));
            shorter.lemma_filter_push(edge, leaving(edge.from));
            lemma_filter_prefix(edges@, index as int + 1, edges@.len() as int, leaving(edge.from));
            assert(edges@.take(edges@.len() as int) =~= edges@);
            lemma_running_monotone(ints, from as int + 1, n as int);
        }
        let ghost previous_cursors = cursors@;
        let cursor = cursors[from] as usize;
        let start = offsets[from] as usize;
        let ghost previous = neighbors@;
        let ghost row = previous.subrange(start as int, start + cursor);
        proof {
            assert(row_matches(nodes@, shorter, from as int, row));
            if row.contains(to) {
                assert(shorter.contains(edge));
            }
        }
        insert_in_row(&mut neighbors, start, cursor, to);
        cursors.set(from, (cursor + 1) as u64);
        proof {
            let longer = edges@.take(index as int + 1);
            assert forall|i: int| 0 <= i < n implies #[trigger] cursors@[i] == longer.filter(
                leaving(nodes@[i].handle),
            ).len() by {
                shorter.lemma_filter_push(edge, leaving(nodes@[i].handle));
                if nodes@[i].handle == edge.from {
                    assert(map@[nodes@[i].handle.0] == i);
                }
            }
            assert forall|k: int| 0 <= k < total implies #[trigger] neighbors@[k] < n || n == 0 by {
                if !(start <= k <= start + cursor) {
                    assert(neighbors@[k] == previous[k]);
                } else {
                    let grown = neighbors@.subrange(start as int, start + cursor + 1);
                    assert(grown[k - start] == neighbors@[k]);
                    assert(grown.contains(neighbors@[k]));
                    if neighbors@[k] != to {
                        assert(row.contains(neighbors@[k]));
                        let g = choose|g: int| 0 <= g < row.len() && #[trigger] row[g] == neighbors@[k];
                        assert(previous[start + g] == neighbors@[k]);
                    }
                }
            }
            assert forall|i: int| 0 <= i < n implies #[trigger] row_matches(
                nodes@,
                longer,
                i,
                neighbors@.subrange(offsets@[i] as int, offsets@[i] + cursors@[i]),
            ) by {
                let region = neighbors@.subrange(offsets@[i] as int, offsets@[i] + cursors@[i]);
                if i == from {
                    assert forall|x: u32| #[trigger] region.contains(x) == linked(nodes@, longer, i, x as int) by {
                        assert(linked(nodes@, shorter, i, x as int) == row.contains(x));
                        if x as int == to as int {
                            assert(longer[index as int] == edge);
                        }
                        if linked(nodes@, longer, i, x as int) && x != to {
                            let e = DirectedEdge { from: nodes@[i].handle, to: nodes@[x as int].handle };
                            let g = choose|g: int| 0 <= g < longer.len() && #[trigger] longer[g] == e;
                            if g == index {
                                assert(map@[nodes@[x as int].handle.0] == x);
                            }
                            assert(shorter[g] == e);
                        }
                        if linked(nodes@, shorter, i, x as int) {
                            let e = DirectedEdge { from: nodes@[i].handle, to: nodes@[x as int].handle };
                            let g = choose|g: int| 0 <= g < shorter.len() && #[trigger] shorter[g] == e;
                            assert(longer[g] == e);
                        }
                    }
                } else {
                    assert(nodes@[i].handle != edge.from) by {
                        assert(map@[nodes@[i].handle.0] == i);
                    }
                    if i < from {
                        lemma_running_monotone(ints, i + 1, from as int);
                    } else {
                        lemma_running_monotone(ints, from as int + 1, i);
                    }
                    assert(offsets@[i + 1] == running(ints, i + 1));
                    assert(offsets@[from as int + 1] == running(ints, from as int + 1));
                    assert(ints[i] == degrees@[i]);
                    assert(ints[from as int] == degrees@[from as int]);
                    let earlier = previous.subrange(offsets@[i] as int, offsets@[i] + cursors@[i]);
                    lemma_filter_prefix(edges@, index as int + 1, edges@.len() as int, leaving(nodes@[i].handle));
                    assert(cursors@[i] <= degrees@[i]);
                    assert(offsets@[i] + cursors@[i] <= offsets@[i + 1]);
                    assert(cursors@[i] == previous_cursors[i]);
                    assert(start == offsets@[from as int]);
                    lemma_running_monotone(ints, i + 1, n as int);
                    if i < from {
                        assert(offsets@[i] + cursors@[i] <= start);
                    } else {
                        assert(start + cursor + 1 <= offsets@[from as int + 1]);
                        assert(offsets@[from as int + 1] <= offsets@[i]);
                    }
                    assert forall|m: int| 0 <= m < region.len() implies region[m] == earlier[m] by {
                        let k = offsets@[i] + m;
                        assert(!(start <= k <= start + cursor));
                        assert(neighbors@[k] == previous[k]);
                    }
                    assert(region =~= earlier);
                    assert(row_matches(nodes@, shorter, i, earlier));
                    assert forall|x: u32| #[trigger] region.contains(x) == linked(nodes@, longer, i, x as int) by {
                        if linked(nodes@, longer, i, x as int) {
                            let e = DirectedEdge { from: nodes@[i].handle, to: nodes@[x as int].handle };
                            let g = choose|g: int| 0 <= g < longer.len() && #[trigger] longer[g] == e;
                            assert(shorter[g] == e);
                        }
                        if linked(nodes@, shorter, i, x as int) {
                            let e = DirectedEdge { from: nodes@[i].handle, to: nodes@[x as int].handle };
                            let g = choose|g: int| 0 <= g < shorter.len() && #[trigger] shorter[g] == e;
                            assert(longer[g] == e);
                        }
                    }
                }
            }
        }
        index += 1;
    }
    proof {
        assert(edges@.take(index as int) =~= edges@);
        assert forall|i: int| 0 <= i < n implies #[trigger] row_matches(
            nodes@,
            edges@,
            i,
            neighbors@.subrange(offsets@[i] as int, offsets@[i + 1] as int),
        ) by {
            assert(ints[i] == degrees@[i]);
            assert(offsets@[i + 1] == running(ints, i + 1));
            assert(offsets@[i] + cursors@[i] == offsets@[i + 1]);
            assert(row_matches(
                nodes@,
                edges@.take(index as int),
                i,
                neighbors@.subrange(offsets@[i] as int, offsets@[i] + cursors@[i]),
            ));
        }
    }
    neighbors
}

/// Whether every edge has an edge in the opposite direction.
pub open spec fn reciprocal(edges: Seq<DirectedEdge>) -> bool {
    forall|j: int| !#[trigger] unreciprocated(edges, j)
}

/// Whether node `i` has more neighbors than a diffusion step supports.
pub open spec fn overloaded(nodes: Seq<GraphNode>, edges: Seq<DirectedEdge>, i: int) -> bool {
    0 <= i < nodes.len() && out_degree(edges, nodes[i].handle) > MAX_CARDINAL_NEIGHBORS
}

/// A node has fewer out-edges than there are nodes: edges are distinct, leave their source
/// for another known node, so the targets of one node's edges are distinct other nodes.
pub proof fn lemma_out_degree_below_node_count(nodes: Seq<GraphNode>, edges: Seq<DirectedEdge>, h: NodeHandle)
    requires
        edges_valid(nodes, edges),
        has_handle(nodes, h),
    ensures
        out_degree(edges, h) < nodes.len(),
{
    broadcast use vstd::seq_lib::group_filter_ensures;
    broadcast use vstd::set::group_set_axioms;

    let keep = leaving(h);
    let outgoing = edges.filter(keep);
    assert(edges.no_duplicates()) by {
        assert forall|a: int, b: int| 0 <= a < edges.len() && 0 <= b < edges.len() && a != b implies edges[a]
            != edges[b] by {
            let (lo, hi) = if a < b {
                (a, b)
            } else {
                (b, a)
            };
            assert(edge_fault(nodes, edges, hi) is None);
            if edges[lo] == edges[hi] {
                assert(edges.take(hi)[lo] == edges[hi]);
            }
        }
    }
    lemma_filter_keeps_distinct(edges, keep);
    let targets = outgoing.map_values(|e: DirectedEdge| e.to);
    assert(targets.no_duplicates()) by {
        assert forall|a: int, b: int| 0 <= a < targets.len() && 0 <= b < targets.len() && a != b implies targets[a]
            != targets[b] by {
            assert(keep(outgoing[a]) && keep(outgoing[b]));
            assert(outgoing[a] != outgoing[b]);
        }
    }
    targets.unique_seq_to_set();
    let known = nodes.map_values(|n: GraphNode| n.handle).to_set();
    nodes.map_values(|n: GraphNode| n.handle).lemma_cardinality_of_set();
    assert(known.contains(h)) by {
        let i = choose|i: int| 0 <= i < nodes.len() && (#[trigger] nodes[i]).handle == h;
        assert(nodes.map_values(|n: GraphNode| n.handle)[i] == h);
    }
    assert forall|t: NodeHandle| #[trigger] targets.to_set().contains(t) implies known.remove(h).contains(t) by {
        let a = choose|a: int| 0 <= a < targets.len() && #[trigger] targets[a] == t;
        let e = outgoing[a];
        assert(keep(e));
        edges.lemma_filter_contains_rev(keep, e);
        let j = choose|j: int| 0 <= j < edges.len() && #[trigger] edges[j] == e;
        assert(edge_fault(nodes, edges, j) is None);
        let k = choose|k: int| 0 <= k < nodes.len() && (#[trigger] nodes[k]).handle == e.to;
        assert(nodes.map_values(|n: GraphNode| n.handle)[k] == t);
    }
    vstd::set_lib::lemma_len_subset(targets.to_set(), known.remove(h));
}

/// Filtering a sequence without repeats leaves a sequence without repeats.
proof fn lemma_filter_keeps_distinct(s: Seq<DirectedEdge>, keep: spec_fn(DirectedEdge) -> bool)
    requires
        s.no_duplicates(),
    ensures
        s.filter(keep).no_duplicates(),
    decreases s.len(),
{
    broadcast use vstd::seq_lib::group_filter_ensures;

    if s.len() > 0 {
        let rest = s.drop_last();
        let last = s.last();
        assert(s =~= rest.push(last));
        rest.lemma_filter_push(last, keep);
        assert(rest.no_duplicates());
        lemma_filter_keeps_distinct(rest, keep);
        if keep(last) {
            assert(!rest.filter(keep).contains(last)) by {
                if rest.filter(keep).contains(last) {
                    rest.lemma_filter_contains_rev(keep, last);
                    let j = choose|j: int| 0 <= j < rest.len() && #[trigger] rest[j] == last;
                    assert(s[j] == s[s.len() - 1]);
                }
            }
            let f = rest.filter(keep).push(last);
            assert forall|a: int, b: int| 0 <= a < f.len() && 0 <= b < f.len() && a != b implies f[a] != f[b] by {
                if a == f.len() - 1 {
                    assert(rest.filter(keep).contains(f[b]) ==> f[b] != last);
                    assert(rest.filter(keep)[b] == f[b]);
                } else if b == f.len() - 1 {
                    assert(rest.filter(keep)[a] == f[a]);
                }
            }
        }
    } else {
        assert(s.filter(keep) =~= s) by {
            reveal(Seq::filter);
        }
    }
}

/// Whether node `i` is the first with more neighbors than a diffusion step supports.
pub open spec fn first_overloaded(nodes: Seq<GraphNode>, edges: Seq<DirectedEdge>, i: int) -> bool {
    &&& overloaded(nodes, edges, i)
    &&& forall|j: int| 0 <= j < i ==> !#[trigger] overloaded(nodes, edges, j)
}

/// Checks a node and edge list and builds its packed adjacency. Checks run in this order,
/// each reporting the first failure: every node in order, every edge in order, reciprocity
/// (reporting the smallest one-way edge), node degrees in node order, and finally the total
/// number of edges, which must fit in 32 bits. In the resulting graph, the row of each node
/// lists the positions of its neighbors in ascending order.
pub fn validate_graph(nodes: &[GraphNode], edges: &[DirectedEdge]) -> (r: Result<DiffusionGraph, GraphValidationError>)
    ensures
        r is Ok <==> graph_accepted(nodes@, edges@),
        !nodes_valid(nodes@) ==> exists|i: int| #[trigger]
            first_node_fault(nodes@, i) && r == Err::<DiffusionGraph, GraphValidationError>(
                node_fault(nodes@, i)->0,
            ),
        nodes_valid(nodes@) && !edges_valid(nodes@, edges@) ==> exists|j: int| #[trigger]
            first_edge_fault(nodes@, edges@, j) && r == Err::<DiffusionGraph, GraphValidationError>(
                edge_fault(nodes@, edges@, j)->0,
            ),
        nodes_valid(nodes@) && edges_valid(nodes@, edges@) && !reciprocal(edges@) ==> exists|j: int| #[trigger]
            least_unreciprocated(edges@, j) && r == Err::<DiffusionGraph, GraphValidationError>(
                GraphValidationError::MissingReciprocalEdge { from: edges@[j].from, to: edges@[j].to },
            ),
        nodes_valid(nodes@) && edges_valid(nodes@, edges@) && reciprocal(edges@) && (exists|i: int|
            #[trigger] overloaded(nodes@, edges@, i)) ==> exists|i: int| #[trigger]
            first_overloaded(nodes@, edges@, i) && out_degree(edges@, nodes@[i].handle) <= u32::MAX && r
                == Err::<DiffusionGraph, GraphValidationError>(
                GraphValidationError::DegreeExceeded {
                    handle: nodes@[i].handle,
                    degree: out_degree(edges@, nodes@[i].handle) as u32,
                },
            ),
        nodes_valid(nodes@) && edges_valid(nodes@, edges@) && reciprocal(edges@) && (forall|i: int|
            !#[trigger] overloaded(nodes@, edges@, i)) ==> {
            &&& running(degree_seq(nodes@, edges@), nodes@.len() as int) > u32::MAX ==> r
                == Err::<DiffusionGraph, GraphValidationError>(GraphValidationError::HandleSpaceExceeded)
            &&& running(degree_seq(nodes@, edges@), nodes@.len() as int) <= u32::MAX ==> (r matches Ok(
                graph,
            ) && {
                &&& graph.node_seq() == nodes@
                &&& forall|i: int| 0 <= i < nodes@.len() ==> #[trigger] row_matches(nodes@, edges@, i, graph.row(i))
                &&& forall|i: int| 0 <= i < nodes@.len() ==> #[trigger] graph.row(i).len() == out_degree(
                    edges@,
                    nodes@[i].handle,
                )
                &&& forall|i: int| 0 <= i < nodes@.len() ==> graph.locate(#[trigger] nodes@[i].handle) == Some(i)
                &&& forall|h: NodeHandle| !has_handle(nodes@, h) ==> #[trigger] graph.locate(h) is None
            })
        },
{
    let map = match index_nodes(nodes) {
        Ok(map) => map,
        Err(e) => {
            return Err(e);
        },
    };
    let keys = match check_edges(nodes, &map, edges) {
        Ok(keys) => keys,
        Err(e) => {
            return Err(e);
        },
    };
    if let Some(edge) = least_unreciprocated_edge(edges, &keys) {
        return Err(GraphValidationError::MissingReciprocalEdge { from: edge.from, to: edge.to });
    }
    let degrees = count_degrees(nodes, &map, edges);
    let mut index: usize = 0;
    while index < degrees.len()
        invariant
            nodes_valid(nodes@),
            edges_valid(nodes@, edges@),
            reciprocal(edges@),
            index <= degrees@.len(),
            degrees@.len() == nodes@.len(),
            forall|i: int| 0 <= i < nodes@.len() ==> #[trigger] degrees@[i] == out_degree(edges@, nodes@[i].handle),
            forall|j: int| 0 <= j < index ==> !#[trigger] overloaded(nodes@, edges@, j),
        decreases degrees@.len() - index,
    {
        if degrees[index] > MAX_CARDINAL_NEIGHBORS as u64 {
            proof {
                assert(first_overloaded(nodes@, edges@, index as int));
                assert(has_handle(nodes@, nodes@[index as int].handle));
                lemma_out_degree_below_node_count(nodes@, edges@, nodes@[index as int].handle);
                assert(node_fault(nodes@, nodes@.len() - 1) is None);
            }
            return Err(GraphValidationError::DegreeExceeded {
                handle: nodes[index].handle,
                degree: degrees[index] as u32,
            });
        }
        index += 1;
    }
    proof {
        assert(degrees@.map_values(|d: u64| d as int) =~= degree_seq(nodes@, edges@));
        assert forall|i: int| 0 <= i < degrees@.len() implies #[trigger] degrees@[i] <= MAX_CARDINAL_NEIGHBORS by {
            assert(!overloaded(nodes@, edges@, i));
        }
    }
    let offsets = match prefix_offsets(&degrees) {
        Some(offsets) => offsets,
        None => {
            return Err(GraphValidationError::HandleSpaceExceeded);
        },
    };
    let neighbors = place_neighbors(nodes, &map, edges, &degrees, &offsets);
    let mut copied: Vec<GraphNode> = Vec::new();
    let mut filled: usize = 0;
    while filled < nodes.len()
        invariant
            filled <= nodes@.len(),
            copied@ == nodes@.take(filled as int),
        decreases nodes@.len() - filled,
    {
        copied.push(nodes[filled]);
        filled += 1;
        proof {
            assert(copied@ =~= nodes@.take(filled as int));
        }
    }
    proof {
        assert(copied@ =~= nodes@);
        let n = nodes@.len();
        let ints = degrees@.map_values(|d: u64| d as int);
        if n > 0 {
            assert(node_fault(nodes@, n - 1) is None);
        }
        assert forall|i: int| 0 <= i < n implies offsets@[i] <= #[trigger] offsets@[i + 1] by {
            assert(offsets@[i + 1] == running(ints, i + 1));
            assert(ints[i] >= 0);
        }
    }
    let graph = DiffusionGraph { nodes: copied, handle_to_index: map, offsets, neighbors };
    proof {
        assert forall|i: int| 0 <= i < nodes@.len() implies #[trigger] row_matches(nodes@, edges@, i, graph.row(i)) by {}
        assert forall|i: int| 0 <= i < nodes@.len() implies #[trigger] graph.row(i).len() == out_degree(
            edges@,
            nodes@[i].handle,
        ) by {
            let ints = degrees@.map_values(|d: u64| d as int);
            assert(offsets@[i + 1] == running(ints, i + 1));
            assert(ints[i] == degrees@[i]);
            graph.lemma_offsets_ordered(i + 1, nodes@.len() as int);
        }
        assert forall|h: NodeHandle| !has_handle(nodes@, h) implies #[trigger] graph.locate(h) is None by {}
    }
    Ok(graph)
}

/// Adjacency in a validated graph is symmetric: when the edge list is reciprocal and each
/// row matches it, node `t` is a neighbor of node `i` exactly when `i` is a neighbor of `t`.
pub proof fn lemma_rows_symmetric(
    nodes: Seq<GraphNode>,
    edges: Seq<DirectedEdge>,
    graph: DiffusionGraph,
    i: int,
    t: int,
)
    requires
        reciprocal(edges),
        0 <= i < nodes.len(),
        0 <= t < nodes.len(),
        i <= u32::MAX,
        t <= u32::MAX,
        forall|k: int| 0 <= k < nodes.len() ==> #[trigger] row_matches(nodes, edges, k, graph.row(k)),
    ensures
        graph.row(i).contains(t as u32) == graph.row(t).contains(i as u32),
{
    assert(row_matches(nodes, edges, i, graph.row(i)));
    assert(row_matches(nodes, edges, t, graph.row(t)));
    let forward = DirectedEdge { from: nodes[i].handle, to: nodes[t].handle };
    let backward = DirectedEdge { from: nodes[t].handle, to: nodes[i].handle };
    if edges.contains(forward) {
        let j = choose|j: int| 0 <= j < edges.len() && #[trigger] edges[j] == forward;
        assert(!unreciprocated(edges, j));
        assert(reversed(edges[j]) == backward);
    }
    if edges.contains(backward) {
        let j = choose|j: int| 0 <= j < edges.len() && #[trigger] edges[j] == backward;
        assert(!unreciprocated(edges, j));
        assert(reversed(edges[j]) == forward);
    }
    assert(graph.row(i).contains(t as u32) == linked(nodes, edges, i, t));
    assert(graph.row(t).contains(i as u32) == linked(nodes, edges, t, i));
}

} // verus!
