//! The state graph: a `petgraph` stable undirected graph whose nodes carry
//! boards and whose edges carry the color of the block that moved.
//!
//! `petgraph` is called through the trusted items of this module. The graph's
//! contents are named by [`graph_nodes`] (the node slots, vacant ones as `None`)
//! and [`graph_edges`] (the edge slots, as endpoint pairs with their weight).

use crate::board::Board;
use petgraph::stable_graph::{NodeIndex, StableGraph};
use petgraph::Undirected;
use vstd::prelude::*;

verus! {

/// What the graph stores for one board state.
pub struct NodeData<N> {
    /// The board's hash, which identifies the state.
    pub hash: u64,
    /// The board itself.
    pub node: N,
    /// The node this one was first stepped into from during a depth-first
    /// walk, which is where that walk backs out to; `None` otherwise.
    pub parent: Option<u32>,
    /// The number of moves from the root along the walk that discovered this
    /// node: one more than the depth of the node it was found from. For a
    /// space explored breadth-first only, this is the node's distance from the
    /// root; a depth-first walk records the length of its path instead.
    pub depth: u32,
    /// Whether a walk has looked at all of this node's moves and joined it to
    /// every board one move away: the breadth-first walk on expanding it, or
    /// the depth-first walk on backing out of it.
    pub bfs_expanded: bool,
}

/// What an edge stores: the color of the block whose move it stands for, as
/// the bit patterns of its linear RGBA channels.
#[derive(Clone, Copy, Debug)]
pub struct EdgeData(pub [u32; 4]);

#[verifier::external_type_specification]
#[verifier::external_body]
#[verifier::reject_recursive_types(N)]
#[verifier::reject_recursive_types(E)]
#[verifier::reject_recursive_types(Ty)]
#[verifier::reject_recursive_types(Ix)]
pub struct ExStableGraph<N, E, Ty, Ix>(StableGraph<N, E, Ty, Ix>);

#[verifier::external_type_specification]
#[verifier::external_body]
pub struct ExUndirected(Undirected);

/// Name for the node slots of a graph, by index; a vacant slot is `None`.
pub uninterp spec fn graph_nodes(g: StableGraph<NodeData<Board>, EdgeData, Undirected, u32>) -> Seq<Option<NodeData<Board>>>;

/// Name for the edge slots of a graph, by index, each live edge as its two
/// endpoints (in the order given when it was added) and its weight.
pub uninterp spec fn graph_edges(g: StableGraph<NodeData<Board>, EdgeData, Undirected, u32>) -> Seq<Option<(u32, u32, EdgeData)>>;

/// The number of occupied slots.
pub open spec fn present_count<T>(s: Seq<Option<T>>) -> nat
    decreases s.len(),
{
    if s.len() == 0 {
        0
    } else {
        present_count(s.drop_last()) + if s.last() is Some { 1nat } else { 0nat }
    }
}

/// Whether every slot is occupied.
pub open spec fn all_present<T>(s: Seq<Option<T>>) -> bool {
    forall|i: int| 0 <= i < s.len() ==> (#[trigger] s[i]) is Some
}

/// Whether edge `e` joins `a` and `b`, in either order.
pub open spec fn joins<E>(e: (u32, u32, E), a: int, b: int) -> bool {
    (e.0 == a && e.1 == b) || (e.0 == b && e.1 == a)
}

/// Whether a live edge joins `a` and `b`, in either order.
pub open spec fn edge_slots_join<E>(s: Seq<Option<(u32, u32, E)>>, a: int, b: int) -> bool {
    exists|k: int| 0 <= k < s.len() && (#[trigger] s[k]) is Some && joins(s[k].unwrap(), a, b)
}

/// `StableGraph::default`: an empty graph.
#[verifier::external_body]
pub(crate) fn graph_new() -> (g: StableGraph<NodeData<Board>, EdgeData, Undirected, u32>)
    ensures
        graph_nodes(g) == Seq::<Option<NodeData<Board>>>::empty(),
        graph_edges(g) == Seq::<Option<(u32, u32, EdgeData)>>::empty(),
{
    StableGraph::default()
}

/// `StableGraph::add_node`: fills a vacant slot if there is one, and otherwise
/// appends a slot; returns the slot's index. It panics when a new slot would
/// take the index reserved for "no node", which `requires` rules out.
#[verifier::external_body]
pub(crate) fn graph_add_node(g: &mut StableGraph<NodeData<Board>, EdgeData, Undirected, u32>, w: NodeData<Board>) -> (r: u32)
    requires
        graph_nodes(*old(g)).len() < u32::MAX,
    ensures
        graph_edges(*final(g)) == graph_edges(*old(g)),
        all_present(graph_nodes(*old(g))) ==> r == graph_nodes(*old(g)).len() && graph_nodes(*final(g))
            == graph_nodes(*old(g)).push(Some(w)),
        (r < graph_nodes(*old(g)).len() && graph_nodes(*old(g))[r as int] is None && graph_nodes(*final(g))
            == graph_nodes(*old(g)).update(r as int, Some(w))) || (r == graph_nodes(*old(g)).len()
            && graph_nodes(*final(g)) == graph_nodes(*old(g)).push(Some(w))),
{
    g.add_node(w).index() as u32
}

/// `StableGraph::add_edge` between two live nodes: fills a vacant edge slot if
/// there is one, and otherwise appends one. It panics on a missing endpoint
/// or when a new slot would take the reserved index; `requires` rules both out.
#[verifier::external_body]
pub(crate) fn graph_add_edge(g: &mut StableGraph<NodeData<Board>, EdgeData, Undirected, u32>, a: u32, b: u32, e: EdgeData)
    requires
        a < graph_nodes(*old(g)).len(),
        b < graph_nodes(*old(g)).len(),
        graph_nodes(*old(g))[a as int] is Some,
        graph_nodes(*old(g))[b as int] is Some,
        graph_edges(*old(g)).len() < u32::MAX,
    ensures
        graph_nodes(*final(g)) == graph_nodes(*old(g)),
        all_present(graph_edges(*old(g))) ==> graph_edges(*final(g)) == graph_edges(*old(g)).push(Some((a, b, e))),
        (exists|k: int|
            0 <= k < graph_edges(*old(g)).len() && graph_edges(*old(g))[k] is None && graph_edges(*final(g))
                == graph_edges(*old(g)).update(k, Some((a, b, e)))) || graph_edges(*final(g))
            == graph_edges(*old(g)).push(Some((a, b, e))),
{
    g.add_edge(NodeIndex::new(a as usize), NodeIndex::new(b as usize), e);
}

/// `StableGraph::contains_edge` for two live nodes of an undirected graph:
/// whether a live edge joins them in either direction.
#[verifier::external_body]
pub(crate) fn graph_contains_edge(g: &StableGraph<NodeData<Board>, EdgeData, Undirected, u32>, a: u32, b: u32) -> (r: bool)
    requires
        a < graph_nodes(*g).len(),
        graph_nodes(*g)[a as int] is Some,
    ensures
        r == edge_slots_join(graph_edges(*g), a as int, b as int),
{
    g.contains_edge(NodeIndex::new(a as usize), NodeIndex::new(b as usize))
}

/// `StableGraph::node_weight`: the weight in slot `a`, if that slot exists and
/// is occupied.
#[verifier::external_body]
pub(crate) fn graph_node_weight(g: &StableGraph<NodeData<Board>, EdgeData, Undirected, u32>, a: u32) -> (r: Option<&NodeData<Board>>)
    ensures
        match r {
            Some(w) => a < graph_nodes(*g).len() && graph_nodes(*g)[a as int] == Some(*w),
            None => !(a < graph_nodes(*g).len() && graph_nodes(*g)[a as int] is Some),
        },
{
    g.node_weight(NodeIndex::new(a as usize))
}

/// `StableGraph::node_weight_mut`, used to replace the weight in an occupied
/// slot.
#[verifier::external_body]
pub(crate) fn graph_set_node_weight(g: &mut StableGraph<NodeData<Board>, EdgeData, Undirected, u32>, a: u32, w: NodeData<Board>)
    requires
        a < graph_nodes(*old(g)).len(),
        graph_nodes(*old(g))[a as int] is Some,
    ensures
        graph_nodes(*final(g)) == graph_nodes(*old(g)).update(a as int, Some(w)),
        graph_edges(*final(g)) == graph_edges(*old(g)),
{
    if let Some(slot) = g.node_weight_mut(NodeIndex::new(a as usize)) {
        *slot = w;
    }
}

/// `StableGraph::node_count`: the number of live nodes.
#[verifier::external_body]
pub(crate) fn graph_node_count(g: &StableGraph<NodeData<Board>, EdgeData, Undirected, u32>) -> (r: usize)
    ensures
        r == present_count(graph_nodes(*g)),
{
    g.node_count()
}

/// `StableGraph::edge_count`: the number of live edges.
#[verifier::external_body]
pub(crate) fn graph_edge_count(g: &StableGraph<NodeData<Board>, EdgeData, Undirected, u32>) -> (r: usize)
    ensures
        r == present_count(graph_edges(*g)),
{
    g.edge_count()
}

} // verus!
