//! The graph of board states reachable by moves, explored one step at a time.

use crate::board::{
    Block, lemma_neighbor_shape, lemma_neighbor_symmetric, lemma_neighbor_wf, neighbor_list, spec_board_hash, Board,
    BoardView,
};
use crate::graph::{
    all_present, edge_slots_join, graph_add_edge, graph_add_node, graph_contains_edge,
    graph_edge_count, graph_edges, graph_new, graph_node_count, graph_node_weight, graph_nodes,
    graph_set_node_weight, joins, present_count, EdgeData, NodeData,
};
use petgraph::stable_graph::StableGraph;
use petgraph::Undirected;
use std::collections::HashMap;
use std::collections::VecDeque;
use vstd::prelude::*;
use vstd::relations::{sorted_by, total_ordering};

verus! {

broadcast use vstd::std_specs::hash::group_hash_axioms;

/// Which traversal [`StateSpace::explore`] performs.
#[derive(Clone, Copy, Debug, PartialEq, Eq, Structural)]
pub enum ExploreMode {
    Depth,
    Breadth,
}

impl Default for ExploreMode {
    /// Breadth-first.
    fn default() -> (r: ExploreMode)
        ensures
            r == ExploreMode::Breadth,
    {
        ExploreMode::Breadth
    }
}

/// The explored part of a puzzle's state space: one node per board state
/// found so far (identified by the board's hash), one edge per pair of states
/// a single move apart.
pub struct StateSpace {
    current: u32,
    map: HashMap<u64, u32>,
    states: StableGraph<NodeData<Board>, EdgeData, Undirected, u32>,
    /// The traversal that [`StateSpace::explore`] performs.
    pub mode: ExploreMode,
    bfs_frontier: VecDeque<u32>,
}

/// The abstract content of a [`StateSpace`].
pub struct StateSpaceView {
    /// The nodes, by index.
    pub nodes: Seq<NodeData<Board>>,
    /// The edges, by index, as endpoints and weight.
    pub edges: Seq<(u32, u32, EdgeData)>,
    /// The node index of each known board hash.
    pub index_of: Map<u64, u32>,
    /// The node the walk stands at.
    pub current: u32,
    /// The traversal that exploring performs.
    pub mode: ExploreMode,
    /// The breadth-first queue.
    pub frontier: Seq<u32>,
}

impl View for StateSpace {
    type V = StateSpaceView;

    closed spec fn view(&self) -> StateSpaceView {
        StateSpaceView {
            nodes: graph_nodes(self.states).map_values(|o: Option<NodeData<Board>>| o.unwrap()),
            edges: graph_edges(self.states).map_values(|o: Option<(u32, u32, EdgeData)>| o.unwrap()),
            index_of: self.map@,
            current: self.current,
            mode: self.mode,
            frontier: self.bfs_frontier@,
        }
    }
}

impl StateSpaceView {
    /// The board of node `i`.
    pub open spec fn board(self, i: int) -> BoardView {
        self.nodes[i].node@
    }

    /// The number of blocks on every board of the space.
    pub open spec fn block_count(self) -> nat {
        self.nodes[0].node@.blocks.len()
    }

    /// Whether an edge joins nodes `a` and `b`.
    pub open spec fn has_edge(self, a: int, b: int) -> bool {
        exists|k: int| 0 <= k < self.edges.len() && joins(#[trigger] self.edges[k], a, b)
    }

    /// Whether the state of board `b` is known and is node `i` or joined to it.
    pub open spec fn reaches(self, i: int, b: BoardView) -> bool {
        let h = spec_board_hash(b);
        &&& self.index_of.contains_key(h)
        &&& (self.index_of[h] == i || self.has_edge(i, self.index_of[h] as int))
    }

    /// Whether every board one move away from node `i` is known and joined to it.
    pub open spec fn closed_at(self, i: int) -> bool {
        forall|k: int|
            0 <= k < neighbor_list(self.board(i)).len() ==> self.reaches(
                i,
                #[trigger] neighbor_list(self.board(i))[k].1,
            )
    }

    /// Whether every node is closed: the graph holds every move out of every state.
    pub open spec fn all_closed(self) -> bool {
        forall|i: int| 0 <= i < self.nodes.len() ==> #[trigger] self.closed_at(i)
    }

    /// Node count, edge endpoints, and no edge given twice.
    pub open spec fn graph_ok(self) -> bool {
        &&& 1 <= self.nodes.len() < u32::MAX
        &&& self.edges.len() < u32::MAX
        &&& self.current < self.nodes.len()
        &&& forall|k: int|
            0 <= k < self.edges.len() ==> {
                &&& (#[trigger] self.edges[k]).0 < self.nodes.len()
                &&& self.edges[k].1 < self.nodes.len()
                &&& self.edges[k].0 != self.edges[k].1
            }
        &&& forall|k: int, l: int|
            0 <= k < l < self.edges.len() ==> !joins(
                #[trigger] self.edges[k],
                (#[trigger] self.edges[l]).0 as int,
                self.edges[l].1 as int,
            )
        &&& forall|k: int| 0 <= k < self.frontier.len() ==> (#[trigger] self.frontier[k]) < self.nodes.len()
    }

    /// The hash index agrees with the nodes, and each node's hash is its board's.
    pub open spec fn index_ok(self) -> bool {
        &&& forall|i: int|
            0 <= i < self.nodes.len() ==> {
                &&& self.index_of.contains_key((#[trigger] self.nodes[i]).hash)
                &&& self.index_of[self.nodes[i].hash] == i
                &&& self.nodes[i].hash == spec_board_hash(self.nodes[i].node@)
            }
        &&& forall|h: u64|
            #[trigger] self.index_of.contains_key(h) ==> self.index_of[h] < self.nodes.len()
                && self.nodes[self.index_of[h] as int].hash == h
    }

    /// Depths and parent links: a node's depth is at most its index, a parent
    /// is an earlier-discovered node of smaller depth, and all boards have the
    /// same number of blocks.
    pub open spec fn nodes_ok(self) -> bool {
        forall|i: int|
            0 <= i < self.nodes.len() ==> {
                &&& (#[trigger] self.nodes[i]).depth <= i
                &&& (self.nodes[i].parent matches Some(p) ==> p < self.nodes.len()
                    && self.nodes[p as int].depth < self.nodes[i].depth)
                &&& self.nodes[i].node@.blocks.len() == self.block_count()
            }
    }

    /// Whether node `i` is joined to an earlier node.
    pub open spec fn joined_to_earlier(self, i: int) -> bool {
        exists|j: int| 0 <= j < i && #[trigger] self.has_edge(j, i)
    }

    /// Every node but the first is joined to an earlier one, so the graph is connected.
    pub open spec fn connected(self) -> bool {
        forall|i: int| 0 < i < self.nodes.len() ==> #[trigger] self.joined_to_earlier(i)
    }

    /// Every node the breadth-first walk has expanded is closed.
    pub open spec fn expanded_closed(self) -> bool {
        forall|i: int| 0 <= i < self.nodes.len() && (#[trigger] self.nodes[i]).bfs_expanded ==> self.closed_at(i)
    }

    /// The state space's invariant.
    #[verifier::opaque]
    pub open spec fn inv(self) -> bool {
        &&& self.graph_ok()
        &&& self.index_ok()
        &&& self.nodes_ok()
        &&& self.connected()
        &&& self.expanded_closed()
    }

    /// The (depth, index) pairs of the first `m` nodes not yet expanded, by index.
    pub open spec fn unexpanded_upto(self, m: int) -> Seq<(u32, u32)>
        decreases m,
    {
        if m <= 0 {
            Seq::empty()
        } else {
            let prev = self.unexpanded_upto(m - 1);
            if !self.nodes[m - 1].bfs_expanded {
                prev.push((self.nodes[m - 1].depth, (m - 1) as u32))
            } else {
                prev
            }
        }
    }

    /// The breadth-first queue rebuilt from scratch: every node not yet
    /// expanded, by depth, nodes of equal depth by index.
    pub open spec fn rebuilt_frontier(self) -> Seq<u32> {
        self.unexpanded_upto(self.nodes.len() as int).sort_by(pair_order()).map_values(
            |p: (u32, u32)| p.1,
        )
    }

    /// Whether `k` is the first position of `q` that holds a node not yet expanded.
    pub open spec fn first_unexpanded_at(self, q: Seq<u32>, k: int) -> bool {
        &&& 0 <= k < q.len()
        &&& !self.nodes[q[k] as int].bfs_expanded
        &&& forall|j: int| 0 <= j < k ==> self.nodes[(#[trigger] q[j]) as int].bfs_expanded
    }

    /// Whether the hash of board `b` is known.
    pub open spec fn knows_board(self, b: BoardView) -> bool {
        self.index_of.contains_key(spec_board_hash(b))
    }

    /// Whether the hash of every board one move from node `i` is known.
    pub open spec fn knows_all_neighbors(self, i: int) -> bool {
        forall|k: int|
            0 <= k < neighbor_list(self.board(i)).len() ==> self.knows_board(
                #[trigger] neighbor_list(self.board(i))[k].1,
            )
    }

    /// Whether node `i` counts as expanded once the nodes in `marked` are.
    pub open spec fn done_with(self, marked: Set<int>, i: int) -> bool {
        self.nodes[i].bfs_expanded || marked.contains(i)
    }

    /// The number of nodes among the first `n` that do not count as expanded
    /// once the nodes in `marked` are.
    pub open spec fn pending_upto(self, marked: Set<int>, n: int) -> nat
        decreases n,
    {
        if n <= 0 {
            0
        } else {
            self.pending_upto(marked, n - 1) + if self.done_with(marked, n - 1) {
                0nat
            } else {
                1nat
            }
        }
    }

    /// Whether `t` is the lowest index of a node that does not count as
    /// expanded once the nodes in `marked` are.
    pub open spec fn first_pending(self, marked: Set<int>, t: int) -> bool {
        &&& 0 <= t < self.nodes.len()
        &&& !self.done_with(marked, t)
        &&& forall|j: int| 0 <= j < t ==> #[trigger] self.done_with(marked, j)
    }

    /// Where the depth-first walk steps out from, standing at node `c` with
    /// the nodes in `marked` counted as expanded. A node not expanded with a
    /// board one move away whose hash is not known is where it steps out
    /// from; a node not expanded whose moves are all known is marked expanded;
    /// from an expanded node the walk backs out along its parent link, and
    /// from one with no parent it resumes at the lowest index of a node not
    /// expanded. `None` when every node is expanded.
    pub open spec fn dfs_walk(self, marked: Set<int>, c: int) -> Option<int>
        decreases self.pending_upto(marked, self.nodes.len() as int), (if self.done_with(marked, c) {
            1int
        } else {
            0int
        }), self.nodes[c].depth,
    {
        if !(0 <= c < self.nodes.len()) {
            None
        } else if !self.done_with(marked, c) {
            if !self.knows_all_neighbors(c) {
                Some(c)
            } else {
                proof {
                    lemma_pending_insert(self, marked, c, self.nodes.len() as int);
                }
                self.dfs_walk(marked.insert(c), c)
            }
        } else {
            match self.nodes[c].parent {
                Some(p) => if 0 <= p < self.nodes.len() && self.nodes[p as int].depth < self.nodes[c].depth {
                    self.dfs_walk(marked, p as int)
                } else {
                    None
                },
                None => if exists|t: int| self.first_pending(marked, t) {
                    self.dfs_walk(marked, choose|t: int| self.first_pending(marked, t))
                } else {
                    None
                },
            }
        }
    }

    /// Whether node `a` lies on the chain of parent links from node `c`,
    /// `c` itself included.
    pub open spec fn on_chain(self, c: int, a: int) -> bool
        decreases self.nodes[c].depth,
    {
        if c == a {
            true
        } else {
            match self.nodes[c].parent {
                Some(p) => if 0 <= p < self.nodes.len() && self.nodes[p as int].depth < self.nodes[c].depth {
                    self.on_chain(p as int, a)
                } else {
                    false
                },
                None => false,
            }
        }
    }

    /// The node the next depth-first step steps out from, if any.
    pub open spec fn dfs_source(self) -> Option<int> {
        self.dfs_walk(Set::empty(), self.current as int)
    }

    /// Whether entry `k` is the first board one move from node `i`, in
    /// neighbor order, whose hash is not known.
    pub open spec fn first_new_neighbor(self, i: int, k: int) -> bool {
        &&& 0 <= k < neighbor_list(self.board(i)).len()
        &&& !self.knows_board(neighbor_list(self.board(i))[k].1)
        &&& forall|j: int| 0 <= j < k ==> self.knows_board(#[trigger] neighbor_list(self.board(i))[j].1)
    }

    /// Whether every node has been expanded.
    pub open spec fn all_expanded(self) -> bool {
        forall|i: int| 0 <= i < self.nodes.len() ==> (#[trigger] self.nodes[i]).bfs_expanded
    }

    /// Room for one breadth-first step: it adds at most four nodes and four
    /// edges per block.
    pub open spec fn bfs_room(self) -> bool {
        &&& self.nodes.len() + 4 * self.block_count() < u32::MAX
        &&& self.edges.len() + 4 * self.block_count() < u32::MAX
    }

    /// Room for one depth-first step: it adds at most one node, but may look
    /// at the moves of every node, four edges per block each.
    pub open spec fn dfs_room(self) -> bool {
        &&& self.nodes.len() + 4 * self.block_count() < u32::MAX
        &&& self.edges.len() + 4 * self.block_count() * self.nodes.len() < u32::MAX
    }

    /// Room for one more step of exploring, in the current mode, without
    /// running out of node or edge indices.
    pub open spec fn has_room(self) -> bool {
        if self.mode == ExploreMode::Breadth {
            self.bfs_room()
        } else {
            self.dfs_room()
        }
    }

    /// Every node of `w` beyond those of `self` is new: its hash was not known
    /// in `self`, it is unexpanded, has no parent, has depth `depth`, and its
    /// board is one move from `b`.
    pub open spec fn new_nodes_from(self, w: StateSpaceView, b: BoardView, depth: int) -> bool {
        forall|j: int|
            self.nodes.len() <= j < w.nodes.len() ==> {
                &&& !self.index_of.contains_key((#[trigger] w.nodes[j]).hash)
                &&& w.nodes[j].depth == depth
                &&& w.nodes[j].parent is None
                &&& !w.nodes[j].bfs_expanded
                &&& exists|k: int|
                    0 <= k < neighbor_list(b).len() && w.nodes[j].node@ == (#[trigger] neighbor_list(b)[k]).1
            }
    }

    /// `w` keeps every node's board, hash and depth, every edge, and every
    /// known hash of `self`, and may add more.
    pub open spec fn grows_to(self, w: StateSpaceView) -> bool {
        &&& self.nodes.len() <= w.nodes.len()
        &&& forall|i: int|
            0 <= i < self.nodes.len() ==> {
                &&& (#[trigger] w.nodes[i]).hash == self.nodes[i].hash
                &&& w.nodes[i].node@ == self.nodes[i].node@
                &&& w.nodes[i].depth == self.nodes[i].depth
            }
        &&& self.edges.len() <= w.edges.len()
        &&& forall|k: int| 0 <= k < self.edges.len() ==> #[trigger] w.edges[k] == self.edges[k]
        &&& forall|h: u64|
            #[trigger] self.index_of.contains_key(h) ==> w.index_of.contains_key(h) && w.index_of[h]
                == self.index_of[h]
    }

    /// Whether entry `j` of the moves out of the board of edge `k`'s first
    /// node leads to a board with the hash of its second node, and the edge
    /// carries the color of the block that moves.
    pub open spec fn edge_is_move_by(self, k: int, j: int) -> bool {
        let e = self.edges[k];
        let moves = neighbor_list(self.board(e.0 as int));
        &&& 0 <= j < moves.len()
        &&& spec_board_hash(moves[j].1) == self.nodes[e.1 as int].hash
        &&& e.2 == EdgeData(moves[j].0.color)
    }

    /// Whether edge `k` stands for a move from its first node to its second.
    pub open spec fn edge_is_move(self, k: int) -> bool {
        exists|j: int| #[trigger] self.edge_is_move_by(k, j)
    }

    /// Whether every edge from index `from` on stands for a move.
    pub open spec fn edges_are_moves_from(self, from: int) -> bool {
        forall|k: int| from <= k < self.edges.len() ==> #[trigger] self.edge_is_move(k)
    }

    /// Whether the board of every node is valid.
    pub open spec fn boards_wf(self) -> bool {
        forall|i: int| 0 <= i < self.nodes.len() ==> #[trigger] self.board(i).wf()
    }

    /// The depth recorded for node `i`.
    pub open spec fn depth(self, i: int) -> int {
        self.nodes[i].depth as int
    }

    /// Whether the hash tells boards apart around the known nodes: a board one
    /// move from a node, whose hash is known, is the board of the node with
    /// that hash.
    pub open spec fn hashes_faithful(self) -> bool {
        forall|i: int, j: int|
            0 <= i < self.nodes.len() && 0 <= j < neighbor_list(self.board(i)).len() && self.knows_board(
                #[trigger] neighbor_list(self.board(i))[j].1,
            ) ==> self.board(self.index_of[spec_board_hash(neighbor_list(self.board(i))[j].1)] as int)
                == neighbor_list(self.board(i))[j].1
    }

    /// Whether node `i` is joined to a node one layer nearer the root.
    pub open spec fn has_nearer_neighbor(self, i: int) -> bool {
        exists|j: int| 0 <= j < self.nodes.len() && self.depth(j) + 1 == self.depth(i) && #[trigger] self.has_edge(j, i)
    }

    /// Whether every depth is witnessed by the graph: the root alone has depth
    /// zero, and every other node is joined to a node one layer nearer.
    pub open spec fn depths_witnessed(self) -> bool {
        &&& self.depth(0) == 0
        &&& forall|i: int| 0 < i < self.nodes.len() ==> #[trigger] self.depth(i) > 0
        &&& forall|i: int| 0 < i < self.nodes.len() ==> #[trigger] self.has_nearer_neighbor(i)
    }

    /// Whether the depths of the two ends of edge `k` differ by at most one.
    pub open spec fn edge_spans_one_layer(self, k: int) -> bool {
        let e = self.edges[k];
        &&& self.depth(e.0 as int) <= self.depth(e.1 as int) + 1
        &&& self.depth(e.1 as int) <= self.depth(e.0 as int) + 1
    }

    /// The layering that a breadth-first walk from the root keeps: the root
    /// alone has depth zero, every other node is joined to a node one layer
    /// nearer, no edge skips a layer, and every board is valid. The queue
    /// holds each unexpanded node once, in order of depth, over at most two
    /// adjacent layers, none shallower than an expanded node.
    pub open spec fn bfs_layered(self) -> bool {
        &&& self.depth(0) == 0
        &&& forall|i: int| 0 < i < self.nodes.len() ==> #[trigger] self.depth(i) > 0
        &&& forall|i: int| 0 < i < self.nodes.len() ==> #[trigger] self.has_nearer_neighbor(i)
        &&& forall|k: int| 0 <= k < self.edges.len() ==> #[trigger] self.edge_spans_one_layer(k)
        &&& forall|i: int| 0 <= i < self.nodes.len() ==> (#[trigger] self.nodes[i]).node@.wf()
        &&& forall|k: int| 0 <= k < self.frontier.len() ==> !self.nodes[(#[trigger] self.frontier[k]) as int].bfs_expanded
        &&& forall|i: int|
            0 <= i < self.nodes.len() && !(#[trigger] self.nodes[i]).bfs_expanded ==> exists|k: int|
                0 <= k < self.frontier.len() && #[trigger] self.frontier[k] == i
        &&& forall|k: int, l: int|
            0 <= k < l < self.frontier.len() ==> #[trigger] self.frontier[k] != #[trigger] self.frontier[l]
        &&& forall|k: int, l: int|
            0 <= k <= l < self.frontier.len() ==> self.depth(#[trigger] self.frontier[k] as int) <= self.depth(
                #[trigger] self.frontier[l] as int,
            ) <= self.depth(self.frontier[k] as int) + 1
        &&& forall|i: int, k: int|
            0 <= i < self.nodes.len() && (#[trigger] self.nodes[i]).bfs_expanded && 0 <= k < self.frontier.len()
                ==> self.depth(i) <= self.depth(#[trigger] self.frontier[k] as int)
    }

    /// Whether `path` runs along edges from node `a` to node `b`.
    pub open spec fn is_walk(self, path: Seq<int>, a: int, b: int) -> bool {
        &&& path.len() >= 1
        &&& path[0] == a
        &&& path.last() == b
        &&& forall|k: int| 0 <= k < path.len() ==> 0 <= #[trigger] path[k] < self.nodes.len()
        &&& forall|k: int| 0 <= k < path.len() - 1 ==> #[trigger] self.has_edge(path[k], path[k + 1])
    }
}

/// An edge that stands for a move still does in a space grown from it.
proof fn lemma_moves_grow(v: StateSpaceView, w: StateSpaceView, from: int)
    requires
        v.graph_ok(),
        v.grows_to(w),
        0 <= from,
        v.edges_are_moves_from(from),
    ensures
        forall|k: int| from <= k < v.edges.len() ==> #[trigger] w.edge_is_move(k),
{
    assert forall|k: int| from <= k < v.edges.len() implies #[trigger] w.edge_is_move(k) by {
        assert(v.edge_is_move(k));
        let j = choose|j: int| #[trigger] v.edge_is_move_by(k, j);
        let e = v.edges[k];
        assert(w.edges[k] == e);
        assert(w.nodes[e.0 as int].node@ == v.nodes[e.0 as int].node@);
        assert(w.nodes[e.1 as int].hash == v.nodes[e.1 as int].hash);
        assert(w.edge_is_move_by(k, j));
    }
}

/// The boards, in move order, whose hashes are neither in `known` nor met
/// earlier in `moves`: the boards that a breadth-first step adds as new nodes.
pub open spec fn fresh_boards(known: Set<u64>, moves: Seq<(Block, BoardView)>) -> Seq<BoardView>
    decreases moves.len(),
{
    if moves.len() == 0 {
        Seq::empty()
    } else {
        let prev = fresh_boards(known, moves.drop_last());
        let h = spec_board_hash(moves.last().1);
        if known.contains(h) || prev.map_values(|b: BoardView| spec_board_hash(b)).contains(h) {
            prev
        } else {
            prev.push(moves.last().1)
        }
    }
}

/// Order on (depth, index) pairs: by depth, then by index.
pub open spec fn pair_le(a: (u32, u32), b: (u32, u32)) -> bool {
    a.0 < b.0 || (a.0 == b.0 && a.1 <= b.1)
}

/// [`pair_le`] as a relation.
pub open spec fn pair_order() -> spec_fn((u32, u32), (u32, u32)) -> bool {
    |a: (u32, u32), b: (u32, u32)| pair_le(a, b)
}

proof fn lemma_pair_order_total()
    ensures
        total_ordering(pair_order()),
{
}

proof fn lemma_insert_sorted_pairs(s: Seq<(u32, u32)>, pos: int, k: (u32, u32))
    requires
        sorted_by(s, pair_order()),
        0 <= pos <= s.len(),
        forall|j: int| 0 <= j < pos ==> pair_le(#[trigger] s[j], k),
        forall|j: int| pos <= j < s.len() ==> pair_le(k, #[trigger] s[j]),
    ensures
        sorted_by(s.insert(pos, k), pair_order()),
{
    s.insert_ensures(pos, k);
    let t = s.insert(pos, k);
    assert forall|a: int, b: int| 0 <= a < b < t.len() implies #[trigger] pair_order()(t[a], t[b]) by {
        if b < pos {
            assert(pair_order()(s[a], s[b]));
        } else if b == pos {
        } else if a < pos {
            assert(pair_le(s[a], k));
            assert(pair_le(k, s[b - 1]));
        } else if a == pos {
        } else {
            assert(pair_order()(s[a - 1], s[b - 1]));
        }
    }
}

/// `v` sorted by depth, then index.
fn sort_pairs(v: Vec<(u32, u32)>) -> (r: Vec<(u32, u32)>)
    ensures
        r@ == v@.sort_by(pair_order()),
{
    let n = v.len();
    let mut sorted: Vec<(u32, u32)> = Vec::new();
    assert(sorted@ =~= v@.take(0));
    let mut i: usize = 0;
    while i < n
        invariant
            n == v@.len(),
            i <= n,
            sorted_by(sorted@, pair_order()),
            sorted@.to_multiset() == v@.take(i as int).to_multiset(),
        decreases n - i,
    {
        let k = v[i];
        let mut pos: usize = 0;
        while pos < sorted.len() && (sorted[pos].0 < k.0 || (sorted[pos].0 == k.0 && sorted[pos].1 <= k.1))
            invariant
                pos <= sorted@.len(),
                forall|j: int| 0 <= j < pos ==> pair_le(#[trigger] sorted@[j], k),
            decreases sorted@.len() - pos,
        {
            pos = pos + 1;
        }
        proof {
            assert forall|j: int| pos <= j < sorted@.len() implies pair_le(k, #[trigger] sorted@[j]) by {
                if j > pos {
                    assert(pair_order()(sorted@[pos as int], sorted@[j]));
                }
            }
            lemma_insert_sorted_pairs(sorted@, pos as int, k);
            vstd::seq_lib::to_multiset_insert(sorted@, pos as int, k);
            assert(v@.take(i + 1) =~= v@.take(i as int).push(k));
            vstd::seq_lib::to_multiset_build(v@.take(i as int), k);
        }
        sorted.insert(pos, k);
        i = i + 1;
    }
    proof {
        assert(v@.take(n as int) =~= v@);
        lemma_pair_order_total();
        v@.lemma_sort_by_ensures(pair_order());
        vstd::seq_lib::lemma_sorted_unique(sorted@, v@.sort_by(pair_order()), pair_order());
    }
    sorted
}

/// The state space made of saved parts: nodes and edges by index, where the
/// walk stands, and the traversal mode; the index of each hash is the node
/// with that hash, and the breadth-first queue is empty.
pub open spec fn restored_view(
    nodes: Seq<NodeData<Board>>,
    edges: Seq<(u32, u32, EdgeData)>,
    current: u32,
    mode: ExploreMode,
) -> StateSpaceView {
    StateSpaceView {
        nodes,
        edges,
        index_of: Map::new(
            |h: u64| exists|i: int| 0 <= i < nodes.len() && (#[trigger] nodes[i]).hash == h,
            |h: u64| (choose|i: int| 0 <= i < nodes.len() && (#[trigger] nodes[i]).hash == h) as u32,
        ),
        current,
        mode,
        frontier: Seq::empty(),
    }
}

/// The larger endpoint of an edge.
pub open spec fn later_end<E>(e: (u32, u32, E)) -> int {
    if e.0 < e.1 {
        e.1 as int
    } else {
        e.0 as int
    }
}

/// What the invariant of a state space says: edges join two distinct nodes
/// and no two edges join the same pair; each node's hash is its board's hash
/// and indexes it; depths and parent links are consistent; every node but the
/// first is joined to an earlier one; and every expanded node is closed.
pub proof fn lemma_state_space_invariant(v: StateSpaceView)
    requires
        v.inv(),
    ensures
        v.graph_ok(),
        v.index_ok(),
        v.nodes_ok(),
        v.connected(),
        v.expanded_closed(),
{
    reveal(StateSpaceView::inv);
}

/// The state graph is connected: every node is reached from the first node
/// by a path of edges, which this returns.
pub proof fn lemma_path_from_root(v: StateSpaceView, i: int) -> (path: Seq<int>)
    requires
        v.inv(),
        0 <= i < v.nodes.len(),
    ensures
        path.len() >= 1,
        path[0] == 0,
        path.last() == i,
        forall|k: int| 0 <= k < path.len() ==> 0 <= #[trigger] path[k] < v.nodes.len(),
        forall|k: int| 0 <= k < path.len() - 1 ==> v.has_edge(#[trigger] path[k], path[k + 1]),
    decreases i,
{
    reveal(StateSpaceView::inv);
    if i == 0 {
        seq![0]
    } else {
        assert(v.joined_to_earlier(i));
        let j = choose|j: int| 0 <= j < i && #[trigger] v.has_edge(j, i);
        let prefix = lemma_path_from_root(v, j);
        let path = prefix.push(i);
        assert forall|k: int| 0 <= k < path.len() - 1 implies v.has_edge(#[trigger] path[k], path[k + 1]) by {
            if k < prefix.len() - 1 {
                assert(path[k] == prefix[k] && path[k + 1] == prefix[k + 1]);
            } else {
                assert(path[k] == j);
            }
        }
        path
    }
}

/// Whether board `b` is one move from board `a`.
pub open spec fn one_move(a: BoardView, b: BoardView) -> bool {
    exists|k: int| 0 <= k < neighbor_list(a).len() && (#[trigger] neighbor_list(a)[k]).1 == b
}

/// Whether each board of `path` after the first is one move from the one before.
pub open spec fn move_path_step(path: Seq<BoardView>, s: int) -> bool {
    one_move(path[s], path[s + 1])
}

/// Whether the state space holds board `b` itself as the node of its hash.
pub open spec fn holds_board(v: StateSpaceView, b: BoardView) -> bool {
    &&& v.index_of.contains_key(spec_board_hash(b))
    &&& v.board(v.index_of[spec_board_hash(b)] as int) == b
}

/// Once every node is closed, the graph holds every board reachable by moves
/// from a board it holds. The statement is for paths none of whose boards
/// shares its hash with a different board of the graph: the graph tells
/// states apart by hash alone.
pub proof fn lemma_closed_space_holds_reachable(v: StateSpaceView, path: Seq<BoardView>)
    requires
        v.inv(),
        v.all_closed(),
        path.len() >= 1,
        holds_board(v, path[0]),
        forall|s: int| 0 <= s < path.len() - 1 ==> #[trigger] move_path_step(path, s),
        forall|s: int|
            0 <= s < path.len() && v.index_of.contains_key(spec_board_hash(#[trigger] path[s]))
                ==> v.board(v.index_of[spec_board_hash(path[s])] as int) == path[s],
    ensures
        forall|s: int| 0 <= s < path.len() ==> #[trigger] holds_board(v, path[s]),
    decreases path.len(),
{
    if path.len() > 1 {
        let prefix = path.drop_last();
        assert forall|s: int| 0 <= s < prefix.len() - 1 implies #[trigger] move_path_step(prefix, s) by {
            assert(move_path_step(path, s));
        }
        assert forall|s: int|
            0 <= s < prefix.len() && v.index_of.contains_key(spec_board_hash(#[trigger] prefix[s]))
                implies v.board(v.index_of[spec_board_hash(prefix[s])] as int) == prefix[s] by {
            assert(prefix[s] == path[s]);
        }
        lemma_closed_space_holds_reachable(v, prefix);
        let last = path.len() - 1;
        assert(holds_board(v, prefix[last - 1]));
        assert(move_path_step(path, last - 1));
        let i = v.index_of[spec_board_hash(path[last - 1])] as int;
        assert(v.index_of[spec_board_hash(path[last - 1])] < v.nodes.len()) by {
            reveal(StateSpaceView::inv);
        }
        assert(v.closed_at(i));
        let k = choose|k: int| 0 <= k < neighbor_list(path[last - 1]).len() && (#[trigger] neighbor_list(path[last - 1])[k]).1 == path[last];
        assert(v.reaches(i, neighbor_list(v.board(i))[k].1));
        assert forall|s: int| 0 <= s < path.len() implies #[trigger] holds_board(v, path[s]) by {
            if s < last {
                assert(prefix[s] == path[s]);
            }
        }
    }
}

/// Along a walk from the root of a layered space, the node at step `k` has
/// depth at most `k`.
proof fn lemma_walk_depth(v: StateSpaceView, path: Seq<int>, b: int, k: int)
    requires
        v.inv(),
        v.bfs_layered(),
        v.is_walk(path, 0, b),
        0 <= k < path.len(),
    ensures
        v.depth(path[k]) <= k,
    decreases k,
{
    if k > 0 {
        let j = k - 1;
        lemma_walk_depth(v, path, b, j);
        assert(v.has_edge(path[j], path[j + 1]));
        assert(j + 1 == k);
        let e = choose|e: int| 0 <= e < v.edges.len() && joins(#[trigger] v.edges[e], path[j], path[j + 1]);
        assert(v.edge_spans_one_layer(e));
    }
}

/// When every depth is witnessed, some walk from the root reaches node `i` in
/// `depth(i)` steps; this returns it.
pub proof fn lemma_walk_of_depth(v: StateSpaceView, i: int) -> (path: Seq<int>)
    requires
        v.inv(),
        v.depths_witnessed(),
        0 <= i < v.nodes.len(),
    ensures
        v.is_walk(path, 0, i),
        path.len() == v.depth(i) + 1,
    decreases v.depth(i),
{
    if i == 0 {
        seq![0]
    } else {
        assert(v.has_nearer_neighbor(i));
        let j = choose|j: int| 0 <= j < v.nodes.len() && v.depth(j) + 1 == v.depth(i) && #[trigger] v.has_edge(j, i);
        let prefix = lemma_walk_of_depth(v, j);
        let path = prefix.push(i);
        assert forall|k: int| 0 <= k < path.len() - 1 implies #[trigger] v.has_edge(path[k], path[k + 1]) by {
            if k < prefix.len() - 1 {
                assert(path[k] == prefix[k] && path[k + 1] == prefix[k + 1]);
            } else {
                assert(path[k] == j);
            }
        }
        assert forall|k: int| 0 <= k < path.len() implies 0 <= #[trigger] path[k] < v.nodes.len() by {
            if k < prefix.len() {
                assert(path[k] == prefix[k]);
            }
        }
        path
    }
}

/// In any explored space whose depths are witnessed, where every edge stands
/// for a move, the boards are valid and the hash tells the boards around each
/// node apart, a node's depth is the length of a path of moves from the
/// root's board to its board, which this returns: a depth is never less than
/// the least number of moves.
pub proof fn lemma_depth_is_a_move_path(v: StateSpaceView, i: int) -> (path: Seq<BoardView>)
    requires
        v.inv(),
        v.depths_witnessed(),
        v.hashes_faithful(),
        v.edges_are_moves_from(0),
        v.boards_wf(),
        0 <= i < v.nodes.len(),
    ensures
        is_move_path_from_root(v, path),
        path.last() == v.board(i),
        path.len() == v.depth(i) + 1,
{
    let walk = lemma_walk_of_depth(v, i);
    let path = walk.map_values(|n: int| v.board(n));
    assert forall|s: int| 0 <= s < path.len() - 1 implies #[trigger] move_path_step(path, s) by {
        assert(v.has_edge(walk[s], walk[s + 1]));
        lemma_edge_one_move(v, walk[s], walk[s + 1]);
    }
    path
}

/// In a space laid out breadth-first, a node's depth is its distance from the
/// root: some walk from the root reaches node `i` in `depth(i)` steps, which
/// this returns, and no walk reaches it in fewer.
pub proof fn lemma_depth_is_distance(v: StateSpaceView, i: int) -> (path: Seq<int>)
    requires
        v.inv(),
        v.bfs_layered(),
        0 <= i < v.nodes.len(),
    ensures
        v.is_walk(path, 0, i),
        path.len() == v.depth(i) + 1,
        forall|p: Seq<int>| #[trigger] v.is_walk(p, 0, i) ==> p.len() >= v.depth(i) + 1,
    decreases v.depth(i),
{
    assert forall|p: Seq<int>| #[trigger] v.is_walk(p, 0, i) implies p.len() >= v.depth(i) + 1 by {
        lemma_walk_depth(v, p, i, p.len() - 1);
    }
    if i == 0 {
        seq![0]
    } else {
        assert(v.has_nearer_neighbor(i));
        let j = choose|j: int| 0 <= j < v.nodes.len() && v.depth(j) + 1 == v.depth(i) && #[trigger] v.has_edge(j, i);
        let prefix = lemma_depth_is_distance(v, j);
        let path = prefix.push(i);
        assert forall|k: int| 0 <= k < path.len() - 1 implies #[trigger] v.has_edge(path[k], path[k + 1]) by {
            if k < prefix.len() - 1 {
                assert(path[k] == prefix[k] && path[k + 1] == prefix[k + 1]);
            } else {
                assert(path[k] == j);
            }
        }
        assert forall|k: int| 0 <= k < path.len() implies 0 <= #[trigger] path[k] < v.nodes.len() by {
            if k < prefix.len() {
                assert(path[k] == prefix[k]);
            }
        }
        path
    }
}

/// A breadth-first step from a layered space expands the head of the queue.
proof fn lemma_bfs_head(v: StateSpaceView, c: int)
    requires
        v.bfs_layered(),
        0 <= c < v.nodes.len(),
        !v.nodes[c].bfs_expanded,
    ensures
        v.frontier.len() > 0,
        v.first_unexpanded_at(v.frontier, 0),
        forall|k: int| v.first_unexpanded_at(v.frontier, k) ==> k == 0,
{
    let kk = choose|k: int| 0 <= k < v.frontier.len() && #[trigger] v.frontier[k] == c;
    assert(v.frontier[kk] == c);
    assert(!v.nodes[v.frontier[0] as int].bfs_expanded);
    assert forall|k: int| v.first_unexpanded_at(v.frontier, k) implies k == 0 by {
        if k > 0 {
            assert(v.nodes[v.frontier[0] as int].bfs_expanded);
        }
    }
}

/// The new edges of a breadth-first step out of node `c` of a layered space
/// skip no layer: an edge to an already expanded node would repeat the edge
/// that node's own expansion made.
proof fn lemma_bfs_step_edges(v: StateSpaceView, w: StateSpaceView, c: int)
    requires
        v.inv(),
        w.inv(),
        v.bfs_layered(),
        v.hashes_faithful(),
        v.grows_to(w),
        0 <= c < v.nodes.len(),
        !v.nodes[c].bfs_expanded,
        v.frontier[0] == c,
        v.new_nodes_from(w, w.board(c), v.depth(c) + 1),
        forall|k: int| v.edges.len() <= k < w.edges.len() ==> (#[trigger] w.edges[k]).0 == c,
        w.edges_are_moves_from(v.edges.len() as int),
    ensures
        forall|k: int| 0 <= k < w.edges.len() ==> #[trigger] w.edge_spans_one_layer(k),
{
    reveal(StateSpaceView::inv);
    assert(v.frontier.len() > 0);
    assert forall|k: int| 0 <= k < w.edges.len() implies #[trigger] w.edge_spans_one_layer(k) by {
        if k < v.edges.len() {
            assert(v.edge_spans_one_layer(k));
            assert(w.edges[k] == v.edges[k]);
            let e = v.edges[k];
            assert(w.nodes[e.0 as int].depth == v.nodes[e.0 as int].depth);
            assert(w.nodes[e.1 as int].depth == v.nodes[e.1 as int].depth);
        } else {
            let e = w.edges[k];
            let x = e.1 as int;
            assert(e.0 == c);
            assert(w.nodes[c].depth == v.nodes[c].depth);
            if x >= v.nodes.len() {
                assert(w.nodes[x].depth == v.depth(c) + 1);
            } else if !v.nodes[x].bfs_expanded {
                let kk = choose|kk: int| 0 <= kk < v.frontier.len() && #[trigger] v.frontier[kk] == x;
                assert(v.frontier[kk] == x);
                assert(v.depth(v.frontier[0] as int) <= v.depth(v.frontier[kk] as int) <= v.depth(v.frontier[0] as int) + 1);
                assert(w.nodes[x].depth == v.nodes[x].depth);
            } else {
                assert(w.edge_is_move(k));
                let j = choose|j: int| #[trigger] w.edge_is_move_by(k, j);
                let nl = neighbor_list(v.board(c));
                assert(w.board(c) == v.board(c));
                assert(w.nodes[x].hash == v.nodes[x].hash);
                assert(spec_board_hash(nl[j].1) == v.nodes[x].hash);
                assert(v.index_of.contains_key(v.nodes[x].hash));
                assert(v.knows_board(nl[j].1));
                assert(v.board(x) == nl[j].1);
                assert(v.board(c).wf());
                lemma_neighbor_symmetric(v.board(c), j);
                let l = choose|l: int| 0 <= l < neighbor_list(nl[j].1).len() && (#[trigger] neighbor_list(nl[j].1)[l]).1 == v.board(c);
                assert(v.closed_at(x));
                assert(v.reaches(x, neighbor_list(v.board(x))[l].1));
                assert(v.index_of[spec_board_hash(v.board(c))] == c);
                assert(x != c);
                assert(v.has_edge(x, c));
                let kk = choose|kk: int| 0 <= kk < v.edges.len() && joins(#[trigger] v.edges[kk], x, c);
                assert(w.edges[kk] == v.edges[kk]);
                assert(!joins(w.edges[kk], w.edges[k].0 as int, w.edges[k].1 as int));
            }
        }
    }
}

/// A breadth-first step that expands node `c`, the head of the queue, keeps
/// a space layered.
proof fn lemma_bfs_step_layered(v: StateSpaceView, w: StateSpaceView, c: int)
    requires
        v.inv(),
        w.inv(),
        v.bfs_layered(),
        v.hashes_faithful(),
        v.grows_to(w),
        0 <= c < v.nodes.len(),
        !v.nodes[c].bfs_expanded,
        w.nodes[c].bfs_expanded,
        w.closed_at(c),
        forall|i: int| 0 <= i < v.nodes.len() && i != c ==> #[trigger] w.nodes[i] == v.nodes[i],
        v.new_nodes_from(w, w.board(c), v.depth(c) + 1),
        forall|k: int| v.edges.len() <= k < w.edges.len() ==> (#[trigger] w.edges[k]).0 == c,
        w.edges_are_moves_from(v.edges.len() as int),
        v.frontier.len() > 0,
        v.frontier[0] == c,
        w.frontier == v.frontier.skip(1) + StateSpace::index_range(v.nodes.len() as int, w.nodes.len() as int),
    ensures
        w.bfs_layered(),
{
    lemma_bfs_step_edges(v, w, c);
    let n = v.nodes.len() as int;
    let dc = v.depth(c);
    let vf = v.frontier;
    let wf = w.frontier;
    assert(wf.len() == vf.len() - 1 + (w.nodes.len() - n));
    assert(w.graph_ok()) by {
        reveal(StateSpaceView::inv);
    }
    assert forall|m: int| 0 <= m < wf.len() implies (#[trigger] wf[m]) as int == if m < vf.len() - 1 {
        vf[m + 1] as int
    } else {
        n + (m - (vf.len() - 1))
    } by {
        if m < vf.len() - 1 {
            assert(wf[m] == vf.skip(1)[m]);
        } else {
            let j = m - (vf.len() - 1);
            assert(wf[m] == StateSpace::index_range(n, w.nodes.len() as int)[j]);
            assert(n + j < u32::MAX);
            assert(StateSpace::index_range(n, w.nodes.len() as int)[j] == (n + j) as u32);
        }
    }
    assert(v.graph_ok() && v.index_ok()) by {
        reveal(StateSpaceView::inv);
    }
    // Depths, boards and flags of the nodes.
    assert forall|i: int| 0 <= i < n implies #[trigger] w.depth(i) == v.depth(i) && w.board(i) == v.board(i) by {
        assert(w.nodes[i].depth == v.nodes[i].depth);
    }
    assert forall|i: int| n <= i < w.nodes.len() implies #[trigger] w.depth(i) == dc + 1 && !w.nodes[i].bfs_expanded by {
        assert(w.nodes[i].depth == dc + 1);
    }
    assert(w.depth(0) == 0);
    assert forall|i: int| 0 < i < w.nodes.len() implies #[trigger] w.depth(i) > 0 by {
        if i < n {
            assert(v.depth(i) > 0);
        }
    }
    // Every node past the root has a nearer neighbor.
    assert forall|i: int| 0 < i < w.nodes.len() implies #[trigger] w.has_nearer_neighbor(i) by {
        if i < n {
            assert(v.has_nearer_neighbor(i));
            let j = choose|j: int| 0 <= j < v.nodes.len() && v.depth(j) + 1 == v.depth(i) && #[trigger] v.has_edge(j, i);
            lemma_edge_grows(v, w, j, i);
            assert(w.depth(j) == v.depth(j));
        } else {
            let kq = choose|kq: int|
                0 <= kq < neighbor_list(w.board(c)).len() && w.nodes[i].node@ == (#[trigger] neighbor_list(w.board(c))[kq]).1;
            let bq = neighbor_list(w.board(c))[kq].1;
            assert(w.reaches(c, bq));
            assert(w.index_ok()) by {
                reveal(StateSpaceView::inv);
            }
            assert(w.nodes[i].hash == spec_board_hash(bq));
            assert(w.index_of[spec_board_hash(bq)] == i);
            assert(w.has_edge(c, i));
            assert(w.depth(c) + 1 == w.depth(i));
        }
    }
    // Every board is valid.
    assert forall|i: int| 0 <= i < w.nodes.len() implies (#[trigger] w.nodes[i]).node@.wf() by {
        if i < n {
            assert(v.nodes[i].node@.wf());
        } else {
            let kq = choose|kq: int|
                0 <= kq < neighbor_list(w.board(c)).len() && w.nodes[i].node@ == (#[trigger] neighbor_list(w.board(c))[kq]).1;
            assert(v.nodes[c].node@.wf());
            lemma_neighbor_wf(v.board(c), kq);
        }
    }
    // The queue.
    assert forall|k: int| 0 <= k < wf.len() implies !w.nodes[(#[trigger] wf[k]) as int].bfs_expanded by {
        if k < vf.len() - 1 {
            assert(vf[k + 1] != vf[0]);
            assert(!v.nodes[vf[k + 1] as int].bfs_expanded);
        }
    }
    assert forall|i: int| 0 <= i < w.nodes.len() && !(#[trigger] w.nodes[i]).bfs_expanded implies exists|k: int|
        0 <= k < wf.len() && #[trigger] wf[k] == i by {
        if i < n {
            assert(i != c);
            assert(!v.nodes[i].bfs_expanded);
            let kk = choose|kk: int| 0 <= kk < vf.len() && #[trigger] vf[kk] == i;
            assert(kk != 0);
            assert(wf[kk - 1] == i);
        } else {
            let m = vf.len() - 1 + (i - n);
            assert(wf[m] == i);
        }
    }
    assert forall|k: int, l: int| 0 <= k < l < wf.len() implies #[trigger] wf[k] != #[trigger] wf[l] by {
        if l < vf.len() - 1 {
            assert(vf[k + 1] != vf[l + 1]);
        } else if k < vf.len() - 1 {
            assert(vf[k + 1] < n);
        }
    }
    assert forall|k: int, l: int| 0 <= k <= l < wf.len() implies w.depth(#[trigger] wf[k] as int) <= w.depth(
        #[trigger] wf[l] as int,
    ) <= w.depth(wf[k] as int) + 1 by {
        if l < vf.len() - 1 {
            assert(v.depth(vf[k + 1] as int) <= v.depth(vf[l + 1] as int) <= v.depth(vf[k + 1] as int) + 1);
        } else if k < vf.len() - 1 {
            assert(v.depth(vf[0] as int) <= v.depth(vf[k + 1] as int) <= v.depth(vf[0] as int) + 1);
        }
    }
    assert forall|i: int, k: int|
        0 <= i < w.nodes.len() && (#[trigger] w.nodes[i]).bfs_expanded && 0 <= k < wf.len() implies w.depth(i)
        <= w.depth(#[trigger] wf[k] as int) by {
        if k < vf.len() - 1 {
            assert(v.depth(vf[0] as int) <= v.depth(vf[k + 1] as int));
        }
        if i != c {
            assert(i < n);
            assert(v.nodes[i].bfs_expanded);
            assert(v.depth(i) <= v.depth(vf[0] as int));
        }
    }
}

/// Counting one more node as expanded lowers the number pending among the
/// first `n` nodes by one when it is among them.
pub proof fn lemma_pending_insert(v: StateSpaceView, marked: Set<int>, c: int, n: int)
    requires
        0 <= c < n,
        !v.done_with(marked, c),
    ensures
        v.pending_upto(marked.insert(c), n) < v.pending_upto(marked, n),
    decreases n,
{
    lemma_pending_insert_le(v, marked, c, n - 1);
    if c < n - 1 {
        lemma_pending_insert(v, marked, c, n - 1);
    }
}

/// Counting one more node as expanded never raises the number pending.
pub proof fn lemma_pending_insert_le(v: StateSpaceView, marked: Set<int>, c: int, n: int)
    ensures
        v.pending_upto(marked.insert(c), n) <= v.pending_upto(marked, n),
    decreases n,
{
    if n > 0 {
        lemma_pending_insert_le(v, marked, c, n - 1);
    }
}

/// Whether every move out of node `c` is known depends on its board and the
/// known hashes alone.
proof fn lemma_knows_all_same(v: StateSpaceView, w: StateSpaceView, c: int)
    requires
        v.index_of == w.index_of,
        v.board(c) == w.board(c),
    ensures
        v.knows_all_neighbors(c) == w.knows_all_neighbors(c),
{
    if v.knows_all_neighbors(c) {
        assert forall|k: int| 0 <= k < neighbor_list(w.board(c)).len() implies w.knows_board(
            #[trigger] neighbor_list(w.board(c))[k].1,
        ) by {
            assert(v.knows_board(neighbor_list(v.board(c))[k].1));
        }
    }
    if w.knows_all_neighbors(c) {
        assert forall|k: int| 0 <= k < neighbor_list(v.board(c)).len() implies v.knows_board(
            #[trigger] neighbor_list(v.board(c))[k].1,
        ) by {
            assert(w.knows_board(neighbor_list(w.board(c))[k].1));
        }
    }
}

/// There is at most one lowest pending index.
proof fn lemma_first_pending_unique(v: StateSpaceView, marked: Set<int>, t1: int, t2: int)
    requires
        v.first_pending(marked, t1),
        v.first_pending(marked, t2),
    ensures
        t1 == t2,
{
    if t1 < t2 {
        assert(v.done_with(marked, t1));
    } else if t2 < t1 {
        assert(v.done_with(marked, t2));
    }
}

/// The number of nodes not expanded yet.
pub open spec fn unexpanded_count(nodes: Seq<NodeData<Board>>) -> nat
    decreases nodes.len(),
{
    if nodes.len() == 0 {
        0
    } else {
        unexpanded_count(nodes.drop_last()) + if nodes.last().bfs_expanded {
            0nat
        } else {
            1nat
        }
    }
}

/// At most every node is unexpanded, and one unexpanded node makes the count positive.
proof fn lemma_unexpanded_count_bounds(s: Seq<NodeData<Board>>, i: int)
    ensures
        unexpanded_count(s) <= s.len(),
        0 <= i < s.len() && !s[i].bfs_expanded ==> unexpanded_count(s) > 0,
    decreases s.len(),
{
    if s.len() > 0 {
        if i == s.len() - 1 {
            lemma_unexpanded_count_bounds(s.drop_last(), 0);
        } else {
            lemma_unexpanded_count_bounds(s.drop_last(), i);
            if 0 <= i < s.len() {
                assert(s.drop_last()[i] == s[i]);
            }
        }
    }
}

/// Marking one unexpanded node expanded, with every other flag kept, lowers
/// the count by one.
proof fn lemma_unexpanded_count_mark(s: Seq<NodeData<Board>>, t: Seq<NodeData<Board>>, idx: int)
    requires
        s.len() == t.len(),
        0 <= idx < s.len(),
        !s[idx].bfs_expanded,
        t[idx].bfs_expanded,
        forall|i: int| 0 <= i < s.len() && i != idx ==> (#[trigger] t[i]).bfs_expanded == s[i].bfs_expanded,
    ensures
        unexpanded_count(t) + 1 == unexpanded_count(s),
    decreases s.len(),
{
    if idx == s.len() - 1 {
        lemma_unexpanded_count_same(s.drop_last(), t.drop_last());
    } else {
        assert forall|i: int| 0 <= i < s.len() - 1 && i != idx implies (#[trigger] t.drop_last()[i]).bfs_expanded
            == s.drop_last()[i].bfs_expanded by {
            assert(t[i].bfs_expanded == s[i].bfs_expanded);
        }
        lemma_unexpanded_count_mark(s.drop_last(), t.drop_last(), idx);
        assert(t.last().bfs_expanded == s.last().bfs_expanded);
    }
}

/// The count depends on the flags alone.
proof fn lemma_unexpanded_count_same(s: Seq<NodeData<Board>>, t: Seq<NodeData<Board>>)
    requires
        s.len() == t.len(),
        forall|i: int| 0 <= i < s.len() ==> (#[trigger] t[i]).bfs_expanded == s[i].bfs_expanded,
    ensures
        unexpanded_count(t) == unexpanded_count(s),
    decreases s.len(),
{
    if s.len() > 0 {
        assert forall|i: int| 0 <= i < s.len() - 1 implies (#[trigger] t.drop_last()[i]).bfs_expanded
            == s.drop_last()[i].bfs_expanded by {
            assert(t[i].bfs_expanded == s[i].bfs_expanded);
        }
        lemma_unexpanded_count_same(s.drop_last(), t.drop_last());
        assert(t[s.len() - 1].bfs_expanded == s[s.len() - 1].bfs_expanded);
    }
}

/// The hash index holds exactly one entry per node: its size is the number
/// of states.
pub proof fn lemma_index_size(v: StateSpaceView)
    requires
        v.inv(),
    ensures
        v.index_of.dom().len() == v.nodes.len(),
{
    reveal(StateSpaceView::inv);
    let hashes = v.nodes.map_values(|n: NodeData<Board>| n.hash);
    assert forall|i: int, j: int| 0 <= i < hashes.len() && 0 <= j < hashes.len() && i != j implies hashes[i]
        != hashes[j] by {
        assert(v.index_of[v.nodes[i].hash] == i);
        assert(v.index_of[v.nodes[j].hash] == j);
    }
    assert(hashes.no_duplicates());
    hashes.unique_seq_to_set();
    assert forall|h: u64| v.index_of.dom().contains(h) <==> hashes.to_set().contains(h) by {
        if v.index_of.dom().contains(h) {
            let i = v.index_of[h] as int;
            assert(hashes[i] == h);
        }
        if hashes.to_set().contains(h) {
            let i = choose|i: int| 0 <= i < hashes.len() && hashes[i] == h;
            assert(v.index_of.contains_key(v.nodes[i].hash));
        }
    }
    assert(v.index_of.dom() =~= hashes.to_set());
}

/// The boards of two joined nodes are one move apart, when every edge stands
/// for a move, the boards are valid and the hash tells the boards around each
/// node apart.
proof fn lemma_edge_one_move(v: StateSpaceView, a: int, b: int)
    requires
        v.inv(),
        v.edges_are_moves_from(0),
        v.hashes_faithful(),
        v.boards_wf(),
        v.has_edge(a, b),
    ensures
        one_move(v.board(a), v.board(b)),
{
    reveal(StateSpaceView::inv);
    let k = choose|k: int| 0 <= k < v.edges.len() && joins(#[trigger] v.edges[k], a, b);
    assert(v.edge_is_move(k));
    let j = choose|j: int| #[trigger] v.edge_is_move_by(k, j);
    let e = v.edges[k];
    let x = e.0 as int;
    let y = e.1 as int;
    let nl = neighbor_list(v.board(x));
    assert(v.index_of.contains_key(v.nodes[y].hash));
    assert(v.knows_board(nl[j].1));
    assert(v.index_of[v.nodes[y].hash] == y);
    assert(v.board(y) == nl[j].1);
    assert(one_move(v.board(x), v.board(y)));
    if x != a {
        assert(v.board(x).wf());
        lemma_neighbor_symmetric(v.board(x), j);
        let l = choose|l: int| 0 <= l < neighbor_list(nl[j].1).len() && (#[trigger] neighbor_list(nl[j].1)[l]).1 == v.board(x);
        assert(one_move(v.board(y), v.board(x)));
    }
}

/// Every node's board is reached from the root's board by a path of moves,
/// which this returns, when every edge stands for a move, the boards are
/// valid and the hash tells the boards around each node apart. With
/// [`lemma_closed_space_holds_reachable`], a closed space holds exactly the
/// boards reachable from its root.
pub proof fn lemma_nodes_reachable(v: StateSpaceView, i: int) -> (path: Seq<BoardView>)
    requires
        v.inv(),
        v.edges_are_moves_from(0),
        v.hashes_faithful(),
        v.boards_wf(),
        0 <= i < v.nodes.len(),
    ensures
        path.len() >= 1,
        path[0] == v.board(0),
        path.last() == v.board(i),
        forall|s: int| 0 <= s < path.len() - 1 ==> #[trigger] move_path_step(path, s),
    decreases i,
{
    reveal(StateSpaceView::inv);
    if i == 0 {
        seq![v.board(0)]
    } else {
        assert(v.joined_to_earlier(i));
        let j = choose|j: int| 0 <= j < i && #[trigger] v.has_edge(j, i);
        let prefix = lemma_nodes_reachable(v, j);
        lemma_edge_one_move(v, j, i);
        let path = prefix.push(v.board(i));
        assert forall|s: int| 0 <= s < path.len() - 1 implies #[trigger] move_path_step(path, s) by {
            if s < prefix.len() - 1 {
                assert(move_path_step(prefix, s));
                assert(path[s] == prefix[s] && path[s + 1] == prefix[s + 1]);
            } else {
                assert(path[s] == v.board(j));
                assert(path[s + 1] == v.board(i));
            }
        }
        path
    }
}

/// Whether `path` starts at the root's board and every board of it after the
/// first is one move from the one before.
pub open spec fn is_move_path_from_root(v: StateSpaceView, path: Seq<BoardView>) -> bool {
    &&& path.len() >= 1
    &&& path[0] == v.board(0)
    &&& forall|s: int| 0 <= s < path.len() - 1 ==> #[trigger] move_path_step(path, s)
}

/// Whether board `b` is the board of a known node of depth at most `d`.
pub open spec fn known_within(v: StateSpaceView, b: BoardView, d: int) -> bool {
    &&& v.knows_board(b)
    &&& v.board(v.index_of[spec_board_hash(b)] as int) == b
    &&& v.depth(v.index_of[spec_board_hash(b)] as int) <= d
}

/// Along a path of moves from the root of a layered space, the board at step
/// `s` is a known node of depth at most `s`, unless `s` already lies past the
/// depth of the head of the queue.
proof fn lemma_move_path_depth(v: StateSpaceView, path: Seq<BoardView>, s: int)
    requires
        v.inv(),
        v.bfs_layered(),
        v.hashes_faithful(),
        is_move_path_from_root(v, path),
        0 <= s < path.len(),
    ensures
        known_within(v, path[s], s) || (v.frontier.len() > 0 && s > v.depth(v.frontier[0] as int)),
    decreases s,
{
    reveal(StateSpaceView::inv);
    if s == 0 {
        assert(v.index_of[v.nodes[0].hash] == 0);
    } else {
        let t = s - 1;
        lemma_move_path_depth(v, path, t);
        assert(move_path_step(path, t));
        assert(t + 1 == s);
        if known_within(v, path[t], t) {
            let n = v.index_of[spec_board_hash(path[t])] as int;
            assert(v.board(n) == path[t]);
            let j = choose|j: int| 0 <= j < neighbor_list(path[t]).len() && (#[trigger] neighbor_list(path[t])[j]).1 == path[s];
            if v.nodes[n].bfs_expanded {
                assert(v.closed_at(n));
                assert(v.reaches(n, neighbor_list(v.board(n))[j].1));
                let m = v.index_of[spec_board_hash(path[s])] as int;
                assert(v.knows_board(neighbor_list(v.board(n))[j].1));
                assert(v.board(m) == path[s]);
                if m != n {
                    let e = choose|e: int| 0 <= e < v.edges.len() && joins(#[trigger] v.edges[e], n, m);
                    assert(v.edge_spans_one_layer(e));
                }
                assert(known_within(v, path[s], s));
            } else {
                let kk = choose|kk: int| 0 <= kk < v.frontier.len() && #[trigger] v.frontier[kk] == n;
                assert(v.depth(v.frontier[0] as int) <= v.depth(v.frontier[kk] as int));
            }
        }
    }
}

/// In a space laid out breadth-first, where every edge stands for a move and
/// the hash tells the boards around each node apart, a node's depth is the
/// least number of moves from the root's board to its board: this returns a
/// path of that many moves, and no path of moves is shorter.
pub proof fn lemma_depth_is_move_distance(v: StateSpaceView, i: int) -> (path: Seq<BoardView>)
    requires
        v.inv(),
        v.bfs_layered(),
        v.hashes_faithful(),
        v.edges_are_moves_from(0),
        0 <= i < v.nodes.len(),
    ensures
        is_move_path_from_root(v, path),
        path.last() == v.board(i),
        path.len() == v.depth(i) + 1,
        forall|p: Seq<BoardView>|
            #[trigger] is_move_path_from_root(v, p) && p.last() == v.board(i) ==> p.len() >= v.depth(i) + 1,
{
    reveal(StateSpaceView::inv);
    assert(v.boards_wf());
    let walk = lemma_depth_is_distance(v, i);
    let path = walk.map_values(|n: int| v.board(n));
    assert forall|s: int| 0 <= s < path.len() - 1 implies #[trigger] move_path_step(path, s) by {
        assert(v.has_edge(walk[s], walk[s + 1]));
        lemma_edge_one_move(v, walk[s], walk[s + 1]);
    }
    assert forall|p: Seq<BoardView>|
        #[trigger] is_move_path_from_root(v, p) && p.last() == v.board(i) implies p.len() >= v.depth(i) + 1 by {
        let l = p.len() - 1;
        lemma_move_path_depth(v, p, l);
        assert(v.index_of[v.nodes[i].hash] == i);
        if v.nodes[i].bfs_expanded {
            if v.frontier.len() > 0 {
                assert(v.depth(i) <= v.depth(v.frontier[0] as int));
            }
        } else {
            let kk = choose|kk: int| 0 <= kk < v.frontier.len() && #[trigger] v.frontier[kk] == i;
            assert(v.depth(v.frontier[kk] as int) <= v.depth(v.frontier[0] as int) + 1);
        }
    }
    path
}

/// The count of a sequence of nodes split in two is the sum of the counts.
proof fn lemma_unexpanded_count_split(s: Seq<NodeData<Board>>, n: int)
    requires
        0 <= n <= s.len(),
    ensures
        unexpanded_count(s) == unexpanded_count(s.take(n)) + unexpanded_count(s.skip(n)),
    decreases s.len(),
{
    if n == s.len() {
        assert(s.take(n) =~= s);
        assert(s.skip(n).len() == 0);
    } else {
        lemma_unexpanded_count_split(s.drop_last(), n);
        assert(s.drop_last().take(n) =~= s.take(n));
        assert(s.skip(n).drop_last() =~= s.drop_last().skip(n));
        assert(s.skip(n).last() == s.last());
    }
}

/// Nodes none of which is expanded all count.
proof fn lemma_unexpanded_count_all(s: Seq<NodeData<Board>>)
    requires
        forall|i: int| 0 <= i < s.len() ==> !(#[trigger] s[i]).bfs_expanded,
    ensures
        unexpanded_count(s) == s.len(),
    decreases s.len(),
{
    if s.len() > 0 {
        assert forall|i: int| 0 <= i < s.len() - 1 implies !(#[trigger] s.drop_last()[i]).bfs_expanded by {
            assert(s.drop_last()[i] == s[i]);
        }
        lemma_unexpanded_count_all(s.drop_last());
        assert(!s[s.len() - 1].bfs_expanded);
    }
}

/// A breadth-first step expands exactly one more node: the number of expanded
/// nodes grows by one.
proof fn lemma_bfs_step_count(v: StateSpaceView, w: StateSpaceView, c: int, b: BoardView)
    requires
        v.nodes.len() <= w.nodes.len(),
        0 <= c < v.nodes.len(),
        !v.nodes[c].bfs_expanded,
        w.nodes[c].bfs_expanded,
        forall|i: int| 0 <= i < v.nodes.len() && i != c ==> #[trigger] w.nodes[i] == v.nodes[i],
        v.new_nodes_from(w, b, v.depth(c) + 1),
    ensures
        w.nodes.len() - unexpanded_count(w.nodes) == v.nodes.len() - unexpanded_count(v.nodes) + 1,
{
    let n = v.nodes.len() as int;
    lemma_unexpanded_count_split(w.nodes, n);
    assert forall|i: int| 0 <= i < n && i != c implies (#[trigger] w.nodes.take(n)[i]).bfs_expanded
        == v.nodes[i].bfs_expanded by {
        assert(w.nodes.take(n)[i] == w.nodes[i]);
    }
    lemma_unexpanded_count_mark(v.nodes, w.nodes.take(n), c);
    assert forall|i: int| 0 <= i < w.nodes.skip(n).len() implies !(#[trigger] w.nodes.skip(n)[i]).bfs_expanded by {
        assert(w.nodes.skip(n)[i] == w.nodes[n + i]);
    }
    lemma_unexpanded_count_all(w.nodes.skip(n));
}

/// In a closed space, where every edge stands for a move, the boards are
/// valid and the hash tells the boards around each node apart, two distinct
/// nodes are joined exactly when their boards are one move apart. As no two
/// edges join the same pair, the edges are the unordered pairs of states one
/// move apart.
pub proof fn lemma_closed_edges_are_all_moves(v: StateSpaceView, a: int, b: int)
    requires
        v.inv(),
        v.all_closed(),
        v.edges_are_moves_from(0),
        v.hashes_faithful(),
        v.boards_wf(),
        0 <= a < v.nodes.len(),
        0 <= b < v.nodes.len(),
    ensures
        v.has_edge(a, b) <==> (a != b && one_move(v.board(a), v.board(b))),
{
    reveal(StateSpaceView::inv);
    if v.has_edge(a, b) {
        lemma_edge_one_move(v, a, b);
        let k = choose|k: int| 0 <= k < v.edges.len() && joins(#[trigger] v.edges[k], a, b);
    }
    if a != b && one_move(v.board(a), v.board(b)) {
        let j = choose|j: int| 0 <= j < neighbor_list(v.board(a)).len() && (#[trigger] neighbor_list(v.board(a))[j]).1 == v.board(b);
        assert(v.closed_at(a));
        assert(v.reaches(a, neighbor_list(v.board(a))[j].1));
        assert(v.index_of[v.nodes[b].hash] == b);
    }
}

/// Growing a space keeps its depths witnessed when every new node has depth
/// `d`, one more than the depth of node `c`, and a board that node `c`
/// reaches.
proof fn lemma_depths_kept(v: StateSpaceView, w: StateSpaceView, c: int, d: int)
    requires
        v.inv(),
        w.inv(),
        v.grows_to(w),
        v.depths_witnessed(),
        w.nodes.len() > v.nodes.len() ==> {
            &&& 0 <= c < v.nodes.len()
            &&& d == w.depth(c) + 1
            &&& forall|i: int|
                v.nodes.len() <= i < w.nodes.len() ==> (#[trigger] w.depth(i)) == d && w.reaches(c, w.board(i))
        },
    ensures
        w.depths_witnessed(),
{
    assert(w.index_ok() && v.graph_ok()) by {
        reveal(StateSpaceView::inv);
    }
    assert forall|i: int| 0 < i < w.nodes.len() implies #[trigger] w.depth(i) > 0 by {
        if i < v.nodes.len() {
            assert(w.depth(i) == v.depth(i));
        }
    }
    assert forall|i: int| 0 < i < w.nodes.len() implies #[trigger] w.has_nearer_neighbor(i) by {
        if i < v.nodes.len() {
            assert(w.depth(i) == v.depth(i));
            assert(v.has_nearer_neighbor(i));
            let j = choose|j: int| 0 <= j < v.nodes.len() && v.depth(j) + 1 == v.depth(i) && #[trigger] v.has_edge(j, i);
            lemma_edge_grows(v, w, j, i);
            assert(w.depth(j) == v.depth(j));
        } else {
            assert(w.depth(i) == d);
            assert(w.reaches(c, w.board(i)));
            assert(w.nodes[i].hash == spec_board_hash(w.board(i)));
            assert(w.index_of[w.nodes[i].hash] == i);
            assert(w.has_edge(c, i));
        }
    }
    assert(w.depth(0) == v.depth(0));
}

/// Whether `p` is a path of moves, each board after the first one move from
/// the one before.
pub open spec fn is_move_path(p: Seq<BoardView>) -> bool {
    &&& p.len() >= 1
    &&& forall|s: int| 0 <= s < p.len() - 1 ==> #[trigger] move_path_step(p, s)
}

/// Whether some walk along edges leads from the root to node `i`.
pub open spec fn walk_from_root(v: StateSpaceView, i: int) -> bool {
    exists|p: Seq<int>| #[trigger] v.is_walk(p, 0, i)
}

/// The boards reachable from board `a` by moves.
pub open spec fn reachable_boards(a: BoardView) -> Set<BoardView> {
    Set::new(|b: BoardView| exists|p: Seq<BoardView>| #[trigger] is_move_path(p) && p[0] == a && p.last() == b)
}

/// What holds of every space built by [`StateSpace::new`] and
/// [`StateSpace::explore`] in any modes (those keep each premise but the
/// last, which concerns the hash alone): the hash index gives each node by
/// its board's hash and has one entry per node, the walk stands at a node,
/// no edge joins a node to itself or repeats another, every edge joins
/// boards one move apart, and every node is reached from the root by a walk
/// along edges.
pub proof fn lemma_explored_space(v: StateSpaceView)
    requires
        v.inv(),
        v.edges_are_moves_from(0),
        v.boards_wf(),
        v.hashes_faithful(),
    ensures
        forall|i: int|
            0 <= i < v.nodes.len() ==> v.index_of[(#[trigger] v.nodes[i]).hash] == i && v.nodes[i].hash
                == spec_board_hash(v.nodes[i].node@),
        v.index_of.dom().len() == v.nodes.len(),
        v.current < v.nodes.len(),
        forall|k: int| 0 <= k < v.edges.len() ==> (#[trigger] v.edges[k]).0 != v.edges[k].1,
        forall|k: int, l: int|
            0 <= k < l < v.edges.len() ==> !joins(
                #[trigger] v.edges[k],
                (#[trigger] v.edges[l]).0 as int,
                v.edges[l].1 as int,
            ),
        forall|k: int|
            0 <= k < v.edges.len() ==> one_move(
                v.board((#[trigger] v.edges[k]).0 as int),
                v.board(v.edges[k].1 as int),
            ),
        forall|i: int| 0 <= i < v.nodes.len() ==> #[trigger] walk_from_root(v, i),
{
    reveal(StateSpaceView::inv);
    lemma_index_size(v);
    assert forall|k: int| 0 <= k < v.edges.len() implies one_move(
        v.board((#[trigger] v.edges[k]).0 as int),
        v.board(v.edges[k].1 as int),
    ) by {
        assert(joins(v.edges[k], v.edges[k].0 as int, v.edges[k].1 as int));
        lemma_edge_one_move(v, v.edges[k].0 as int, v.edges[k].1 as int);
    }
    assert forall|i: int| 0 <= i < v.nodes.len() implies #[trigger] walk_from_root(v, i) by {
        let p = lemma_path_from_root(v, i);
        assert(v.is_walk(p, 0, i));
    }
}

/// In a closed space every board reachable from a board it holds by a path
/// of moves is held, step by step, when the hash tells the boards around
/// each node apart.
proof fn lemma_closed_holds_path(v: StateSpaceView, p: Seq<BoardView>, s: int)
    requires
        v.inv(),
        v.all_closed(),
        v.hashes_faithful(),
        is_move_path(p),
        holds_board(v, p[0]),
        0 <= s < p.len(),
    ensures
        holds_board(v, p[s]),
    decreases s,
{
    if s > 0 {
        let t = s - 1;
        lemma_closed_holds_path(v, p, t);
        assert(move_path_step(p, t));
        assert(t + 1 == s);
        let n = v.index_of[spec_board_hash(p[t])] as int;
        assert(n < v.nodes.len()) by {
            reveal(StateSpaceView::inv);
        }
        let j = choose|j: int| 0 <= j < neighbor_list(p[t]).len() && (#[trigger] neighbor_list(p[t])[j]).1 == p[s];
        assert(v.closed_at(n));
        assert(v.reaches(n, neighbor_list(v.board(n))[j].1));
        assert(v.knows_board(neighbor_list(v.board(n))[j].1));
    }
}

/// A finished space is exactly the set of boards reachable from its root:
/// when every node is closed, every edge stands for a move, the boards are
/// valid and the hash tells the boards around each node apart, the nodes'
/// boards, all distinct, are the boards reachable from the root's board, so
/// the number of states is the number of reachable boards.
pub proof fn lemma_closed_space_is_reachable_set(v: StateSpaceView)
    requires
        v.inv(),
        v.all_closed(),
        v.edges_are_moves_from(0),
        v.boards_wf(),
        v.hashes_faithful(),
    ensures
        v.nodes.map_values(|n: NodeData<Board>| n.node@).to_set() == reachable_boards(v.board(0)),
        v.nodes.map_values(|n: NodeData<Board>| n.node@).no_duplicates(),
        reachable_boards(v.board(0)).len() == v.nodes.len(),
{
    reveal(StateSpaceView::inv);
    let boards = v.nodes.map_values(|n: NodeData<Board>| n.node@);
    assert forall|i: int, j: int| 0 <= i < boards.len() && 0 <= j < boards.len() && i != j implies boards[i]
        != boards[j] by {
        assert(v.index_of[v.nodes[i].hash] == i);
        assert(v.index_of[v.nodes[j].hash] == j);
    }
    assert(boards.no_duplicates());
    boards.unique_seq_to_set();
    assert(v.index_of[v.nodes[0].hash] == 0);
    assert forall|b: BoardView| boards.to_set().contains(b) <==> reachable_boards(v.board(0)).contains(b) by {
        if boards.to_set().contains(b) {
            let i = choose|i: int| 0 <= i < boards.len() && boards[i] == b;
            let p = lemma_nodes_reachable(v, i);
            assert(is_move_path(p));
        }
        if reachable_boards(v.board(0)).contains(b) {
            let p = choose|p: Seq<BoardView>| #[trigger] is_move_path(p) && p[0] == v.board(0) && p.last() == b;
            lemma_closed_holds_path(v, p, p.len() - 1);
            let i = v.index_of[spec_board_hash(b)] as int;
            assert(boards[i] == b);
        }
    }
    assert(boards.to_set() =~= reachable_boards(v.board(0)));
}

/// From node `c`, with the nodes in `marked` counted as expanded, the walk
/// steps out of `a` when `a` is on the parent chain from `c`, is not counted
/// as expanded, has an unknown move, and every node before it on the chain is
/// counted as expanded or has every move known.
proof fn lemma_dfs_walk_chain(v: StateSpaceView, marked: Set<int>, c: int, a: int)
    requires
        0 <= c < v.nodes.len(),
        0 <= a < v.nodes.len(),
        v.on_chain(c, a),
        !v.done_with(marked, a),
        !v.knows_all_neighbors(a),
        forall|x: int|
            #![trigger v.on_chain(c, x), v.on_chain(x, a)]
            v.on_chain(c, x) && v.on_chain(x, a) && x != a ==> v.done_with(marked, x) || v.knows_all_neighbors(x),
    ensures
        v.dfs_walk(marked, c) == Some(a),
    decreases v.nodes[c].depth, (if v.done_with(marked, c) {
        0int
    } else {
        1int
    }),
{
    if c != a {
        assert(v.on_chain(c, c));
        assert(v.on_chain(c, a));
        if !v.done_with(marked, c) {
            assert(v.knows_all_neighbors(c));
            lemma_dfs_walk_chain(v, marked.insert(c), c, a);
        } else {
            let p = v.nodes[c].parent->0 as int;
            assert(v.on_chain(p, a));
            assert forall|x: int|
                #![trigger v.on_chain(p, x), v.on_chain(x, a)]
                v.on_chain(p, x) && v.on_chain(x, a) && x != a implies v.done_with(marked, x)
                || v.knows_all_neighbors(x) by {
                if x != c {
                    assert(v.on_chain(c, x));
                }
            }
            lemma_dfs_walk_chain(v, marked, p, a);
        }
    }
}

/// When the walk stands at a node counted as expanded that has no parent, it
/// resumes at the lowest index of a node not counted as expanded, and stops
/// when there is none.
pub proof fn lemma_dfs_walk_resumes_at_lowest(v: StateSpaceView, marked: Set<int>, c: int, t: int)
    requires
        0 <= c < v.nodes.len(),
        v.nodes[c].bfs_expanded || marked.contains(c),
        v.nodes[c].parent is None,
    ensures
        0 <= t < v.nodes.len() && !v.nodes[t].bfs_expanded && !marked.contains(t) && (forall|j: int|
            0 <= j < t ==> v.nodes[j].bfs_expanded || marked.contains(j)) ==> v.dfs_walk(marked, c) == v.dfs_walk(
            marked,
            t,
        ),
        (forall|j: int| 0 <= j < v.nodes.len() ==> v.nodes[j].bfs_expanded || marked.contains(j)) ==> v.dfs_walk(
            marked,
            c,
        ) is None,
{
    if 0 <= t < v.nodes.len() && !v.nodes[t].bfs_expanded && !marked.contains(t) && (forall|j: int|
        0 <= j < t ==> v.nodes[j].bfs_expanded || marked.contains(j)) {
        assert forall|j: int| 0 <= j < t implies #[trigger] v.done_with(marked, j) by {
        }
        assert(v.first_pending(marked, t));
        let ct = choose|ct: int| v.first_pending(marked, ct);
        lemma_first_pending_unique(v, marked, ct, t);
    }
    if forall|j: int| 0 <= j < v.nodes.len() ==> v.nodes[j].bfs_expanded || marked.contains(j) {
        assert forall|u: int| !v.first_pending(marked, u) by {
            if 0 <= u < v.nodes.len() {
                assert(v.done_with(marked, u));
            }
        }
    }
}

/// A depth-first step backs out along parent links: it steps out of the
/// first node on the chain of parent links from where the walk stands that
/// is not expanded and has a board one move away whose hash is not known.
pub proof fn lemma_dfs_source_on_parent_chain(v: StateSpaceView, a: int)
    requires
        0 <= v.current < v.nodes.len(),
        0 <= a < v.nodes.len(),
        v.on_chain(v.current as int, a),
        !v.nodes[a].bfs_expanded,
        !v.knows_all_neighbors(a),
        forall|x: int|
            #![trigger v.on_chain(v.current as int, x), v.on_chain(x, a)]
            v.on_chain(v.current as int, x) && v.on_chain(x, a) && x != a ==> v.nodes[x].bfs_expanded
                || v.knows_all_neighbors(x),
    ensures
        v.dfs_source() == Some(a),
{
    let c = v.current as int;
    assert forall|x: int|
        #![trigger v.on_chain(c, x), v.on_chain(x, a)]
        v.on_chain(c, x) && v.on_chain(x, a) && x != a implies v.done_with(Set::empty(), x)
        || v.knows_all_neighbors(x) by {
    }
    lemma_dfs_walk_chain(v, Set::empty(), c, a);
}

/// Closedness is kept as the graph grows.
pub proof fn lemma_closed_grows(v: StateSpaceView, w: StateSpaceView, i: int)
    requires
        v.grows_to(w),
        0 <= i < v.nodes.len(),
        v.closed_at(i),
    ensures
        w.closed_at(i),
{
    assert(w.board(i) == v.board(i));
    assert forall|k: int| 0 <= k < neighbor_list(w.board(i)).len() implies w.reaches(
        i,
        #[trigger] neighbor_list(w.board(i))[k].1,
    ) by {
        let b = neighbor_list(v.board(i))[k].1;
        assert(v.reaches(i, b));
        let h = spec_board_hash(b);
        if v.index_of[h] != i {
            let e = choose|e: int| 0 <= e < v.edges.len() && joins(#[trigger] v.edges[e], i, v.index_of[h] as int);
            assert(joins(w.edges[e], i, w.index_of[h] as int));
        }
    }
}

proof fn lemma_unexpanded_same(v: StateSpaceView, w: StateSpaceView, m: int)
    requires
        v.nodes == w.nodes,
    ensures
        v.unexpanded_upto(m) == w.unexpanded_upto(m),
    decreases m,
{
    if m > 0 {
        lemma_unexpanded_same(v, w, m - 1);
    }
}

/// Every node below `m` not yet expanded has its (depth, index) pair listed.
proof fn lemma_unexpanded_upto_contains(v: StateSpaceView, m: int, i: int)
    requires
        0 <= i < m <= v.nodes.len(),
        v.nodes.len() < u32::MAX,
        !v.nodes[i].bfs_expanded,
    ensures
        v.unexpanded_upto(m).contains((v.nodes[i].depth, i as u32)),
    decreases m,
{
    let prev = v.unexpanded_upto(m - 1);
    if i == m - 1 {
        assert(v.unexpanded_upto(m)[prev.len() as int] == (v.nodes[i].depth, i as u32));
    } else {
        lemma_unexpanded_upto_contains(v, m - 1, i);
        let k = choose|k: int| 0 <= k < prev.len() && prev[k] == (v.nodes[i].depth, i as u32);
        assert(v.unexpanded_upto(m)[k] == prev[k]);
    }
}

/// The breadth-first queue rebuilt from scratch lists exactly the nodes not
/// yet expanded, shallowest first and, at equal depth, by index; so the node
/// it puts first has the least depth of all nodes not yet expanded.
pub proof fn lemma_rebuilt_frontier_in_depth_order(v: StateSpaceView)
    requires
        v.nodes.len() < u32::MAX,
    ensures
        forall|k: int|
            0 <= k < v.rebuilt_frontier().len() ==> (#[trigger] v.rebuilt_frontier()[k]) < v.nodes.len()
                && !v.nodes[v.rebuilt_frontier()[k] as int].bfs_expanded,
        forall|i: int|
            0 <= i < v.nodes.len() && !(#[trigger] v.nodes[i]).bfs_expanded ==> v.rebuilt_frontier().contains(
                i as u32,
            ),
        forall|k: int, l: int|
            0 <= k < l < v.rebuilt_frontier().len() ==> {
                let a = #[trigger] v.rebuilt_frontier()[k];
                let b = #[trigger] v.rebuilt_frontier()[l];
                v.nodes[a as int].depth < v.nodes[b as int].depth || (v.nodes[a as int].depth
                    == v.nodes[b as int].depth && a <= b)
            },
        forall|i: int|
            0 <= i < v.nodes.len() && !(#[trigger] v.nodes[i]).bfs_expanded ==> v.nodes[v.rebuilt_frontier()[0] as int].depth
                <= v.nodes[i].depth,
{
    let n = v.nodes.len() as int;
    let u = v.unexpanded_upto(n);
    let sp = u.sort_by(pair_order());
    let rf = v.rebuilt_frontier();
    broadcast use vstd::seq_lib::group_to_multiset_ensures;

    lemma_pair_order_total();
    u.lemma_sort_by_ensures(pair_order());
    lemma_unexpanded_upto(v, n);
    assert(rf =~= sp.map_values(|p: (u32, u32)| p.1));
    assert forall|k: int| 0 <= k < sp.len() implies {
        let p = #[trigger] sp[k];
        &&& p.1 < n
        &&& !v.nodes[p.1 as int].bfs_expanded
        &&& p.0 == v.nodes[p.1 as int].depth
    } by {
        assert(sp.to_multiset().count(sp[k]) > 0);
        assert(u.to_multiset().count(sp[k]) > 0);
        assert(u.contains(sp[k]));
        let j = choose|j: int| 0 <= j < u.len() && u[j] == sp[k];
        assert(u[j] == sp[k]);
    }
    assert forall|k: int, l: int| 0 <= k < l < sp.len() implies pair_le(#[trigger] sp[k], #[trigger] sp[l]) by {
        assert(sorted_by(sp, pair_order()));
        assert((pair_order())(sp[k], sp[l]));
    }
    assert forall|i: int| 0 <= i < n && !(#[trigger] v.nodes[i]).bfs_expanded implies rf.contains(i as u32) by {
        lemma_unexpanded_upto_contains(v, n, i);
        let pr = (v.nodes[i].depth, i as u32);
        assert(u.to_multiset().count(pr) > 0);
        assert(sp.to_multiset().count(pr) > 0);
        assert(sp.contains(pr));
        let k = choose|k: int| 0 <= k < sp.len() && sp[k] == pr;
        assert(rf[k] == i as u32);
    }
    assert forall|i: int| 0 <= i < n && !(#[trigger] v.nodes[i]).bfs_expanded implies v.nodes[rf[0] as int].depth
        <= v.nodes[i].depth by {
        assert(rf.contains(i as u32));
        let k = choose|k: int| 0 <= k < rf.len() && rf[k] == i as u32;
        if k > 0 {
            assert(pair_le(sp[0], sp[k]));
        }
    }
}

proof fn lemma_unexpanded_upto(v: StateSpaceView, m: int)
    requires
        0 <= m <= v.nodes.len(),
        v.nodes.len() < u32::MAX,
    ensures
        forall|k: int|
            0 <= k < v.unexpanded_upto(m).len() ==> {
                let p = #[trigger] v.unexpanded_upto(m)[k];
                &&& p.1 < m
                &&& !v.nodes[p.1 as int].bfs_expanded
                &&& p.0 == v.nodes[p.1 as int].depth
            },
        v.unexpanded_upto(m).len() == 0 <==> forall|i: int| 0 <= i < m ==> (#[trigger] v.nodes[i]).bfs_expanded,
    decreases m,
{
    if m > 0 {
        lemma_unexpanded_upto(v, m - 1);
        if v.unexpanded_upto(m).len() == 0 {
            assert forall|i: int| 0 <= i < m implies (#[trigger] v.nodes[i]).bfs_expanded by {
                if i < m - 1 {
                } else {
                }
            }
        }
        if v.unexpanded_upto(m - 1).len() > 0 {
            let p = v.unexpanded_upto(m - 1)[0];
            assert(v.unexpanded_upto(m)[0] == p);
        }
    }
}

/// The invariant does not depend on where the walk stands or what is queued,
/// as long as both name nodes.
#[verifier::spinoff_prover]
#[verifier::rlimit(30)]
proof fn lemma_inv_moved(v: StateSpaceView, w: StateSpaceView)
    requires
        v.inv(),
        w.nodes == v.nodes,
        w.edges == v.edges,
        w.index_of == v.index_of,
        w.current < w.nodes.len(),
        forall|k: int| 0 <= k < w.frontier.len() ==> (#[trigger] w.frontier[k]) < w.nodes.len(),
    ensures
        w.inv(),
{
    reveal(StateSpaceView::inv);
    assert(w.graph_ok());
    assert(w.index_ok());
    assert(w.nodes_ok());
    assert forall|i: int| 0 < i < w.nodes.len() implies #[trigger] w.joined_to_earlier(i) by {
        assert(v.joined_to_earlier(i));
        let j = choose|j: int| 0 <= j < i && #[trigger] v.has_edge(j, i);
        assert(w.has_edge(j, i));
    }
    assert forall|i: int| 0 <= i < w.nodes.len() && (#[trigger] w.nodes[i]).bfs_expanded implies w.closed_at(i) by {
        assert(v.closed_at(i));
        assert forall|k: int| 0 <= k < neighbor_list(w.board(i)).len() implies w.reaches(
            i,
            #[trigger] neighbor_list(w.board(i))[k].1,
        ) by {
            assert(v.reaches(i, neighbor_list(v.board(i))[k].1));
            let h = spec_board_hash(neighbor_list(v.board(i))[k].1);
            if v.index_of[h] != i {
                lemma_edge_grows(v, w, i, v.index_of[h] as int);
            }
        }
    }
}

/// Marking a closed node expanded keeps the invariant.
proof fn lemma_mark_expanded(v: StateSpaceView, w: StateSpaceView, idx: int)
    requires
        v.inv(),
        0 <= idx < v.nodes.len(),
        v.closed_at(idx),
        w.nodes.len() == v.nodes.len(),
        w.nodes[idx].hash == v.nodes[idx].hash,
        w.nodes[idx].node@ == v.nodes[idx].node@,
        w.nodes[idx].depth == v.nodes[idx].depth,
        w.nodes[idx].parent == v.nodes[idx].parent,
        forall|i: int| 0 <= i < v.nodes.len() && i != idx ==> #[trigger] w.nodes[i] == v.nodes[i],
        w.edges == v.edges,
        w.index_of == v.index_of,
        w.current == v.current,
        w.frontier == v.frontier,
    ensures
        w.inv(),
        v.grows_to(w),
{
    reveal(StateSpaceView::inv);
    assert(w.board(idx) == v.board(idx));
    assert(v.grows_to(w));
    lemma_closed_grows(v, w, idx);
    assert forall|i: int| 0 <= i < w.nodes.len() implies {
        &&& (#[trigger] w.nodes[i]).depth <= i
        &&& (w.nodes[i].parent matches Some(p) ==> p < w.nodes.len() && w.nodes[p as int].depth
            < w.nodes[i].depth)
        &&& w.nodes[i].node@.blocks.len() == w.block_count()
    } by {
        assert(v.nodes_ok());
        if i != idx {
            assert(w.nodes[i] == v.nodes[i]);
        }
        if w.nodes[i].parent is Some {
            let p = w.nodes[i].parent->0;
            if p != idx {
                assert(w.nodes[p as int] == v.nodes[p as int]);
            }
        }
        if idx != 0 {
            assert(w.nodes[0] == v.nodes[0]);
        }
    }
    assert forall|i: int| 0 <= i < w.nodes.len() implies {
        &&& w.index_of.contains_key((#[trigger] w.nodes[i]).hash)
        &&& w.index_of[w.nodes[i].hash] == i
        &&& w.nodes[i].hash == spec_board_hash(w.nodes[i].node@)
    } by {
        assert(v.index_ok());
        if i != idx {
            assert(w.nodes[i] == v.nodes[i]);
        }
    }
    assert forall|h: u64| #[trigger] w.index_of.contains_key(h) implies w.index_of[h] < w.nodes.len()
        && w.nodes[w.index_of[h] as int].hash == h by {
        assert(v.index_ok());
        let i = w.index_of[h] as int;
        if i != idx {
            assert(w.nodes[i] == v.nodes[i]);
        }
    }
    assert forall|i: int| 0 < i < w.nodes.len() implies #[trigger] w.joined_to_earlier(i) by {
        assert(v.joined_to_earlier(i));
        let j = choose|j: int| 0 <= j < i && #[trigger] v.has_edge(j, i);
        assert(w.has_edge(j, i));
    }
    assert forall|i: int| 0 <= i < w.nodes.len() && (#[trigger] w.nodes[i]).bfs_expanded implies w.closed_at(i) by {
        if i != idx {
            assert(w.nodes[i] == v.nodes[i]);
            lemma_closed_grows(v, w, i);
        }
    }
    assert(w.graph_ok());
}

/// Facts of the invariant that callers use often.
proof fn lemma_inv_basics(v: StateSpaceView)
    requires
        v.inv(),
    ensures
        v.current < v.nodes.len(),
        1 <= v.nodes.len() < u32::MAX,
        v.nodes[v.current as int].depth <= v.current,
        v.nodes[v.current as int].parent matches Some(p) ==> p < v.nodes.len() && v.nodes[p as int].depth
            < v.nodes[v.current as int].depth,
        forall|k: int| 0 <= k < v.frontier.len() ==> (#[trigger] v.frontier[k]) < v.nodes.len(),
{
    reveal(StateSpaceView::inv);
}

/// Giving the newest node a parent and standing the walk there keeps the
/// invariant.
proof fn lemma_set_parent(v: StateSpaceView, w: StateSpaceView, m: int, p: int)
    requires
        v.inv(),
        0 <= m < v.nodes.len(),
        0 <= p < v.nodes.len(),
        v.nodes[p].depth < v.nodes[m].depth,
        !v.nodes[m].bfs_expanded,
        w.nodes.len() == v.nodes.len(),
        w.nodes[m].hash == v.nodes[m].hash,
        w.nodes[m].node@ == v.nodes[m].node@,
        w.nodes[m].depth == v.nodes[m].depth,
        w.nodes[m].parent == Some(p as u32),
        !w.nodes[m].bfs_expanded,
        forall|i: int| 0 <= i < v.nodes.len() && i != m ==> #[trigger] w.nodes[i] == v.nodes[i],
        w.edges == v.edges,
        w.index_of == v.index_of,
        w.current == m,
        w.frontier == v.frontier,
    ensures
        w.inv(),
        v.grows_to(w),
{
    reveal(StateSpaceView::inv);
    assert(v.grows_to(w));
    assert forall|i: int| 0 <= i < w.nodes.len() implies {
        &&& (#[trigger] w.nodes[i]).depth <= i
        &&& (w.nodes[i].parent matches Some(q) ==> q < w.nodes.len() && w.nodes[q as int].depth
            < w.nodes[i].depth)
        &&& w.nodes[i].node@.blocks.len() == w.block_count()
    } by {
        assert(v.nodes_ok());
        if i != m {
            assert(w.nodes[i] == v.nodes[i]);
        }
        if w.nodes[i].parent is Some {
            let q = w.nodes[i].parent->0;
            if q != m {
                assert(w.nodes[q as int] == v.nodes[q as int]);
            }
        }
        if m != 0 {
            assert(w.nodes[0] == v.nodes[0]);
        }
    }
    assert forall|i: int| 0 <= i < w.nodes.len() implies {
        &&& w.index_of.contains_key((#[trigger] w.nodes[i]).hash)
        &&& w.index_of[w.nodes[i].hash] == i
        &&& w.nodes[i].hash == spec_board_hash(w.nodes[i].node@)
    } by {
        assert(v.index_ok());
        if i != m {
            assert(w.nodes[i] == v.nodes[i]);
        }
    }
    assert forall|h: u64| #[trigger] w.index_of.contains_key(h) implies w.index_of[h] < w.nodes.len()
        && w.nodes[w.index_of[h] as int].hash == h by {
        assert(v.index_ok());
        let i = w.index_of[h] as int;
        if i != m {
            assert(w.nodes[i] == v.nodes[i]);
        }
    }
    assert forall|i: int| 0 < i < w.nodes.len() implies #[trigger] w.joined_to_earlier(i) by {
        assert(v.joined_to_earlier(i));
        let j = choose|j: int| 0 <= j < i && #[trigger] v.has_edge(j, i);
        assert(w.has_edge(j, i));
    }
    assert forall|i: int| 0 <= i < w.nodes.len() && (#[trigger] w.nodes[i]).bfs_expanded implies w.closed_at(i) by {
        assert(w.nodes[i] == v.nodes[i]);
        lemma_closed_grows(v, w, i);
    }
    assert(w.graph_ok());
}

/// A board known and joined to node `i` stays so as the graph grows.
proof fn lemma_reaches_grows(v: StateSpaceView, w: StateSpaceView, i: int, b: BoardView)
    requires
        v.grows_to(w),
        v.reaches(i, b),
    ensures
        w.reaches(i, b),
{
    let h = spec_board_hash(b);
    if v.index_of[h] != i {
        lemma_edge_grows(v, w, i, v.index_of[h] as int);
    }
}

/// A space grows to one with the same nodes, edges and index.
proof fn lemma_grows_same(v: StateSpaceView, w: StateSpaceView)
    requires
        w.nodes == v.nodes,
        w.edges == v.edges,
        w.index_of == v.index_of,
    ensures
        v.grows_to(w),
{
}

/// Growing is transitive.
proof fn lemma_grows_trans(u: StateSpaceView, v: StateSpaceView, w: StateSpaceView)
    requires
        u.grows_to(v),
        v.grows_to(w),
    ensures
        u.grows_to(w),
{
    assert forall|i: int| 0 <= i < u.nodes.len() implies {
        &&& (#[trigger] w.nodes[i]).hash == u.nodes[i].hash
        &&& w.nodes[i].node@ == u.nodes[i].node@
        &&& w.nodes[i].depth == u.nodes[i].depth
    } by {
        assert(v.nodes[i].hash == u.nodes[i].hash);
    }
    assert forall|k: int| 0 <= k < u.edges.len() implies #[trigger] w.edges[k] == u.edges[k] by {
        assert(v.edges[k] == u.edges[k]);
    }
}

/// The graph keeps being connected as it grows by nodes that keep their
/// place, as long as every new node is joined to an earlier one.
proof fn lemma_connected_grows(v: StateSpaceView, w: StateSpaceView)
    requires
        v.connected(),
        v.grows_to(w),
        forall|i: int| v.nodes.len() <= i < w.nodes.len() ==> #[trigger] w.joined_to_earlier(i),
    ensures
        w.connected(),
{
    assert forall|i: int| 0 < i < w.nodes.len() implies #[trigger] w.joined_to_earlier(i) by {
        if i < v.nodes.len() {
            assert(v.joined_to_earlier(i));
            let j = choose|j: int| 0 <= j < i && #[trigger] v.has_edge(j, i);
            lemma_edge_grows(v, w, j, i);
        }
    }
}

/// An edge is kept as the graph grows.
proof fn lemma_edge_grows(v: StateSpaceView, w: StateSpaceView, a: int, b: int)
    requires
        v.grows_to(w),
        v.has_edge(a, b),
    ensures
        w.has_edge(a, b),
{
    let e = choose|e: int| 0 <= e < v.edges.len() && joins(#[trigger] v.edges[e], a, b);
    assert(joins(w.edges[e], a, b));
}

proof fn lemma_present_count_full<T>(s: Seq<Option<T>>)
    requires
        all_present(s),
    ensures
        present_count(s) == s.len(),
    decreases s.len(),
{
    if s.len() > 0 {
        assert(all_present(s.drop_last()));
        lemma_present_count_full(s.drop_last());
    }
}

impl StateSpace {
    /// Whether every node and edge slot of the graph is occupied.
    pub closed spec fn slots_full(&self) -> bool {
        &&& all_present(graph_nodes(self.states))
        &&& all_present(graph_edges(self.states))
        &&& graph_nodes(self.states).len() == self@.nodes.len()
        &&& graph_edges(self.states).len() == self@.edges.len()
    }

    /// The state space's invariant.
    pub open spec fn inv(&self) -> bool {
        self.slots_full() && self@.inv()
    }

    proof fn lemma_slots(&self)
        requires
            all_present(graph_nodes(self.states)),
            all_present(graph_edges(self.states)),
        ensures
            self.slots_full(),
            forall|i: int| 0 <= i < self@.nodes.len() ==> graph_nodes(self.states)[i] == Some(#[trigger] self@.nodes[i]),
            forall|k: int| 0 <= k < self@.edges.len() ==> graph_edges(self.states)[k] == Some(#[trigger] self@.edges[k]),
    {
    }

    /// A state space holding only `board`, which is where the walk stands.
    pub fn new(board: Board) -> (r: StateSpace)
        ensures
            r.inv(),
            r@.nodes.len() == 1,
            r@.nodes[0].node@ == board@,
            r@.nodes[0].hash == spec_board_hash(board@),
            r@.nodes[0].parent is None,
            r@.nodes[0].depth == 0,
            !r@.nodes[0].bfs_expanded,
            r@.edges.len() == 0,
            r@.index_of == map![spec_board_hash(board@) => 0u32],
            r@.current == 0,
            r@.mode == ExploreMode::Breadth,
            r@.frontier == seq![0u32],
            r@.edges_are_moves_from(0),
            board@.wf() ==> r@.bfs_layered(),
            board@.wf() ==> r@.boards_wf(),
            r@.depths_witnessed(),
    {
        let hash = board.board_hash();
        let mut states = graph_new();
        let idx = graph_add_node(
            &mut states,
            NodeData { hash, node: board, parent: None, depth: 0, bfs_expanded: false },
        );
        let mut map: HashMap<u64, u32> = HashMap::new();
        map.insert(hash, idx);
        let mut bfs_frontier: VecDeque<u32> = VecDeque::new();
        bfs_frontier.push_back(idx);
        let r = StateSpace { current: idx, map, states, mode: ExploreMode::Breadth, bfs_frontier };
        proof {
            reveal(StateSpaceView::inv);
            r.lemma_slots();
            assert(r@.index_of =~= map![spec_board_hash(board@) => 0u32]);
            assert(r@.frontier =~= seq![0u32]);
            assert(r@.frontier[0] == 0);
        }
        r
    }

    /// The node for the board with hash `hash`, adding `board` as a new node at
    /// `depth` if no node has that hash yet.
    fn ensure_node(&mut self, board: Board, hash: u64, depth: u32) -> (r: u32)
        requires
            old(self).slots_full(),
            old(self)@.graph_ok(),
            old(self)@.index_ok(),
            old(self)@.nodes_ok(),
            hash == spec_board_hash(board@),
            depth <= old(self)@.nodes.len(),
            board@.blocks.len() == old(self)@.block_count(),
            old(self)@.nodes.len() + 1 < u32::MAX,
        ensures
            final(self).slots_full(),
            final(self)@.graph_ok(),
            final(self)@.index_ok(),
            final(self)@.nodes_ok(),
            old(self)@.grows_to(final(self)@),
            final(self)@.edges == old(self)@.edges,
            final(self)@.current == old(self)@.current,
            final(self)@.mode == old(self)@.mode,
            final(self)@.frontier == old(self)@.frontier,
            final(self)@.block_count() == old(self)@.block_count(),
            r < final(self)@.nodes.len(),
            final(self)@.index_of.contains_key(hash),
            final(self)@.index_of[hash] == r,
            old(self)@.index_of.contains_key(hash) ==> final(self)@.nodes == old(self)@.nodes
                && final(self)@.index_of == old(self)@.index_of,
            !old(self)@.index_of.contains_key(hash) ==> {
                &&& r == old(self)@.nodes.len()
                &&& final(self)@.nodes.len() == old(self)@.nodes.len() + 1
                &&& forall|i: int| 0 <= i < old(self)@.nodes.len() ==> #[trigger] final(self)@.nodes[i] == old(self)@.nodes[i]
                &&& final(self)@.nodes[r as int].hash == hash
                &&& final(self)@.nodes[r as int].node@ == board@
                &&& final(self)@.nodes[r as int].parent is None
                &&& final(self)@.nodes[r as int].depth == depth
                &&& !final(self)@.nodes[r as int].bfs_expanded
                &&& final(self)@.index_of == old(self)@.index_of.insert(hash, r)
            },
    {
        proof {
            self.lemma_slots();
        }
        match self.map.get(&hash) {
            Some(idx) => {
                return *idx;
            },
            None => {},
        }
        let ghost old_view = self@;
        let idx = graph_add_node(
            &mut self.states,
            NodeData { hash, node: board, parent: None, depth, bfs_expanded: false },
        );
        self.map.insert(hash, idx);
        proof {
            let w = NodeData { hash, node: board, parent: None, depth, bfs_expanded: false };
            assert(graph_nodes(self.states) == graph_nodes(old(self).states).push(Some(w)));
            assert(all_present(graph_nodes(self.states)));
            self.lemma_slots();
            assert(self@.nodes =~= old_view.nodes.push(w));
            assert(self@.index_of =~= old_view.index_of.insert(hash, idx));
            assert(self@.block_count() == old_view.block_count());
            assert(self@.edges =~= old_view.edges);
            assert(1 <= self@.nodes.len() < u32::MAX);
            assert(self@.current < self@.nodes.len());
            assert(self@.frontier == old_view.frontier);
            assert(forall|k: int| 0 <= k < self@.frontier.len() ==> (#[trigger] self@.frontier[k]) < self@.nodes.len());
            assert(self@.graph_ok());
        }
        idx
    }

    /// Joins nodes `a` and `b` by an edge of the given color, unless they are the
    /// same node or already joined.
    fn add_edge(&mut self, a: u32, b: u32, color: [u32; 4])
        requires
            old(self).slots_full(),
            old(self)@.graph_ok(),
            a < old(self)@.nodes.len(),
            b < old(self)@.nodes.len(),
            old(self)@.edges.len() + 1 < u32::MAX,
        ensures
            final(self).slots_full(),
            final(self)@.graph_ok(),
            old(self)@.grows_to(final(self)@),
            final(self)@.nodes == old(self)@.nodes,
            final(self)@.index_of == old(self)@.index_of,
            final(self)@.current == old(self)@.current,
            final(self)@.mode == old(self)@.mode,
            final(self)@.frontier == old(self)@.frontier,
            final(self)@.edges == if a != b && !old(self)@.has_edge(a as int, b as int) {
                old(self)@.edges.push((a, b, EdgeData(color)))
            } else {
                old(self)@.edges
            },
            a != b ==> final(self)@.has_edge(a as int, b as int),
    {
        proof {
            self.lemma_slots();
        }
        let ghost old_view = self@;
        if a == b {
            return;
        }
        let joined = graph_contains_edge(&self.states, a, b);
        proof {
            if joined {
                let k = choose|k: int|
                    0 <= k < graph_edges(self.states).len() && (#[trigger] graph_edges(self.states)[k]) is Some
                        && joins(graph_edges(self.states)[k].unwrap(), a as int, b as int);
                assert(joins(old_view.edges[k], a as int, b as int));
            }
            if old_view.has_edge(a as int, b as int) {
                let k = choose|k: int| 0 <= k < old_view.edges.len() && joins(#[trigger] old_view.edges[k], a as int, b as int);
                assert(graph_edges(self.states)[k] == Some(old_view.edges[k]));
                assert(edge_slots_join(graph_edges(self.states), a as int, b as int));
            }
        }
        if joined {
            return;
        }
        graph_add_edge(&mut self.states, a, b, EdgeData(color));
        proof {
            let e = (a, b, EdgeData(color));
            assert(graph_edges(self.states) == graph_edges(old(self).states).push(Some(e)));
            assert(all_present(graph_edges(self.states)));
            self.lemma_slots();
            assert(self@.edges =~= old_view.edges.push(e));
            assert(self@.nodes =~= old_view.nodes);
            assert(joins(self@.edges[old_view.edges.len() as int], a as int, b as int));
            assert(self@.frontier == old_view.frontier);
            assert(forall|k: int| 0 <= k < self@.frontier.len() ==> (#[trigger] self@.frontier[k]) < self@.nodes.len());
            assert forall|k: int| 0 <= k < self@.edges.len() implies {
                &&& (#[trigger] self@.edges[k]).0 < self@.nodes.len()
                &&& self@.edges[k].1 < self@.nodes.len()
                &&& self@.edges[k].0 != self@.edges[k].1
            } by {
                if k < old_view.edges.len() {
                    assert(self@.edges[k] == old_view.edges[k]);
                }
            }
            assert forall|k: int, l: int|
                0 <= k < l < self@.edges.len() implies !joins(
                #[trigger] self@.edges[k],
                (#[trigger] self@.edges[l]).0 as int,
                self@.edges[l].1 as int,
            ) by {
                if l == old_view.edges.len() {
                    assert(!joins(old_view.edges[k], a as int, b as int));
                } else {
                    assert(!joins(old_view.edges[k], old_view.edges[l].0 as int, old_view.edges[l].1 as int));
                }
            }
        }
    }

    /// Looks at `next`, a board one move from node `from`: finds or adds its
    /// node (at `depth` if new) and joins it to `from` by an edge of `color`.
    /// Returns the node and whether its board was already known.
    #[verifier::spinoff_prover]
    #[verifier::rlimit(40)]
    fn visit(&mut self, from: u32, next: Board, color: [u32; 4], depth: u32, Ghost(j): Ghost<int>) -> (r: (
        u32,
        bool,
    ))
        requires
            old(self).inv(),
            from < old(self)@.nodes.len(),
            0 <= j < neighbor_list(old(self)@.board(from as int)).len(),
            next@ == neighbor_list(old(self)@.board(from as int))[j].1,
            color == neighbor_list(old(self)@.board(from as int))[j].0.color,
            depth <= old(self)@.nodes.len(),
            next@.blocks.len() == old(self)@.block_count(),
            old(self)@.nodes.len() + 1 < u32::MAX,
            old(self)@.edges.len() + 1 < u32::MAX,
        ensures
            final(self).inv(),
            old(self)@.grows_to(final(self)@),
            forall|i: int| 0 <= i < old(self)@.nodes.len() ==> #[trigger] final(self)@.nodes[i] == old(self)@.nodes[i],
            final(self)@.current == old(self)@.current,
            final(self)@.mode == old(self)@.mode,
            final(self)@.frontier == old(self)@.frontier,
            final(self)@.block_count() == old(self)@.block_count(),
            final(self)@.edges.len() <= old(self)@.edges.len() + 1,
            final(self)@.reaches(from as int, next@),
            final(self)@.edges_are_moves_from(old(self)@.edges.len() as int),
            forall|k: int|
                old(self)@.edges.len() <= k < final(self)@.edges.len() ==> (#[trigger] final(self)@.edges[k]).0 == from,
            r.1 == old(self)@.index_of.contains_key(spec_board_hash(next@)),
            r.0 == final(self)@.index_of[spec_board_hash(next@)],
            r.1 ==> final(self)@.nodes == old(self)@.nodes,
            r.1 ==> final(self)@.index_of == old(self)@.index_of,
            !r.1 ==> final(self)@.index_of == old(self)@.index_of.insert(spec_board_hash(next@), r.0),
            !r.1 ==> {
                &&& r.0 == old(self)@.nodes.len()
                &&& final(self)@.nodes.len() == old(self)@.nodes.len() + 1
                &&& final(self)@.nodes[r.0 as int].hash == spec_board_hash(next@)
                &&& final(self)@.nodes[r.0 as int].node@ == next@
                &&& final(self)@.nodes[r.0 as int].parent is None
                &&& final(self)@.nodes[r.0 as int].depth == depth
                &&& !final(self)@.nodes[r.0 as int].bfs_expanded
            },
    {
        proof {
            reveal(StateSpaceView::inv);
        }
        let ghost start = self@;
        let ghost next_view = next@;
        let hash = next.board_hash();
        let discovered = self.map.contains_key(&hash);
        let neighbor = self.ensure_node(next, hash, depth);
        let ghost mid = self@;
        self.add_edge(from, neighbor, color);
        proof {
            let fin = self@;
            lemma_grows_trans(start, mid, fin);
            assert forall|i: int| start.nodes.len() <= i < fin.nodes.len() implies #[trigger] fin.joined_to_earlier(i) by {
                assert(i == neighbor);
                assert(fin.has_edge(from as int, i));
            }
            lemma_connected_grows(start, fin);
            assert forall|i: int| 0 <= i < fin.nodes.len() && (#[trigger] fin.nodes[i]).bfs_expanded implies fin.closed_at(i) by {
                if i < start.nodes.len() {
                    assert(fin.nodes[i] == start.nodes[i]);
                    lemma_closed_grows(start, fin, i);
                }
            }
            assert(fin.index_of[hash] == neighbor);
            assert forall|k: int| start.edges.len() <= k < fin.edges.len() implies #[trigger] fin.edge_is_move(k) by {
                assert(fin.edges[k] == (from, neighbor, EdgeData(color)));
                assert(fin.board(from as int) == start.board(from as int));
                assert(fin.nodes[neighbor as int].hash == hash);
                assert(fin.edge_is_move_by(k, j));
            }
        }
        (neighbor, discovered)
    }

    /// The data of node `i`.
    fn node_at(&self, i: u32) -> (r: &NodeData<Board>)
        requires
            self.slots_full(),
            i < self@.nodes.len(),
        ensures
            *r == self@.nodes[i as int],
    {
        proof {
            self.lemma_slots();
        }
        graph_node_weight(&self.states, i).unwrap()
    }

    /// Replaces the data of node `i` by `w`, which keeps its board, hash and depth.
    fn set_node(&mut self, i: u32, w: NodeData<Board>)
        requires
            old(self).slots_full(),
            i < old(self)@.nodes.len(),
        ensures
            final(self).slots_full(),
            final(self)@.nodes == old(self)@.nodes.update(i as int, w),
            final(self)@.edges == old(self)@.edges,
            final(self)@.index_of == old(self)@.index_of,
            final(self)@.current == old(self)@.current,
            final(self)@.mode == old(self)@.mode,
            final(self)@.frontier == old(self)@.frontier,
    {
        proof {
            self.lemma_slots();
        }
        let ghost start = self@;
        graph_set_node_weight(&mut self.states, i, w);
        proof {
            assert(all_present(graph_nodes(self.states)));
            self.lemma_slots();
            assert(self@.nodes =~= start.nodes.update(i as int, w));
            assert(self@.edges =~= start.edges);
        }
    }

    /// The indices from `lo` up to, not including, `hi`.
    pub open spec fn index_range(lo: int, hi: int) -> Seq<u32> {
        Seq::new((hi - lo) as nat, |j: int| (lo + j) as u32)
    }

    /// Expands node `idx` breadth-first: every board one move away gets its
    /// node (found or added) joined to `idx`, new nodes are queued, and `idx`
    /// is marked expanded. Returns the board of `idx`.
    #[verifier::spinoff_prover]
    #[verifier::rlimit(60)]
    fn expand_bfs(&mut self, idx: u32) -> (r: Board)
        requires
            old(self).inv(),
            old(self)@.bfs_room(),
            idx < old(self)@.nodes.len(),
            !old(self)@.nodes[idx as int].bfs_expanded,
        ensures
            final(self).inv(),
            old(self)@.grows_to(final(self)@),
            final(self)@.current == idx,
            final(self)@.mode == old(self)@.mode,
            final(self)@.block_count() == old(self)@.block_count(),
            r@ == old(self)@.board(idx as int),
            final(self)@.nodes[idx as int].bfs_expanded,
            final(self)@.nodes[idx as int].parent == old(self)@.nodes[idx as int].parent,
            forall|i: int|
                0 <= i < old(self)@.nodes.len() && i != idx ==> #[trigger] final(self)@.nodes[i]
                    == old(self)@.nodes[i],
            final(self)@.frontier == old(self)@.frontier + Self::index_range(
                old(self)@.nodes.len() as int,
                final(self)@.nodes.len() as int,
            ),
            old(self)@.new_nodes_from(final(self)@, r@, old(self)@.nodes[idx as int].depth + 1),
            final(self)@.nodes.len() <= old(self)@.nodes.len() + 4 * old(self)@.block_count(),
            final(self)@.edges.len() <= old(self)@.edges.len() + 4 * old(self)@.block_count(),
            final(self)@.edges_are_moves_from(old(self)@.edges.len() as int),
            forall|k: int|
                old(self)@.edges.len() <= k < final(self)@.edges.len() ==> (#[trigger] final(self)@.edges[k]).0 == idx,
            final(self)@.nodes.len() == old(self)@.nodes.len() + fresh_boards(old(self)@.index_of.dom(), neighbor_list(r@)).len(),
            forall|j: int|
                0 <= j < fresh_boards(old(self)@.index_of.dom(), neighbor_list(r@)).len() ==> final(self)@.board(
                    old(self)@.nodes.len() + j,
                ) == #[trigger] fresh_boards(old(self)@.index_of.dom(), neighbor_list(r@))[j],
    {
        let ghost start = self@;
        proof {
            assert(start.nodes[idx as int].depth <= idx && start.graph_ok() && start.nodes[idx as int].node@.blocks.len() == start.block_count()) by {
                reveal(StateSpaceView::inv);
            }
        }
        self.current = idx;
        proof {
            assert(self@.frontier == start.frontier);
            assert(self@.nodes == start.nodes);
            assert(start.graph_ok());
            assert(forall|k: int| 0 <= k < self@.frontier.len() ==> (#[trigger] self@.frontier[k]) < self@.nodes.len());
            lemma_inv_moved(start, self@);
            assert(start.grows_to(self@));
        }
        let node = self.node_at(idx);
        let board = node.node.clone();
        let depth = node.depth;
        let nbrs = board.neighbors();
        let m = nbrs.len();
        let ghost nl = neighbor_list(board@);
        let ghost kk = start.block_count();
        proof {
            lemma_neighbor_shape(board@);
            assert(start.nodes[idx as int].node@.blocks.len() == kk);
            assert(4 * kk <= 4 * kk * start.nodes.len()) by (nonlinear_arith)
                requires
                    start.nodes.len() >= 1,
            ;
        }
        let mut k: usize = 0;
        while k < m
            invariant
                self.inv(),
                start.grows_to(self@),
                self@.current == idx,
                self@.mode == start.mode,
                self@.block_count() == kk,
                kk == start.block_count(),
                start.bfs_room(),
                start.inv(),
                idx < start.nodes.len(),
                forall|i: int| 0 <= i < start.nodes.len() ==> #[trigger] self@.nodes[i] == start.nodes[i],
                k <= m,
                m == nl.len(),
                nl == neighbor_list(board@),
                board@ == start.board(idx as int),
                depth == start.nodes[idx as int].depth,
                depth <= idx,
                m <= 4 * kk,
                4 * kk <= 4 * kk * start.nodes.len(),
                forall|j: int| 0 <= j < m ==> (#[trigger] nl[j]).1.blocks.len() == kk,
                nbrs@.len() == m,
                forall|j: int| 0 <= j < m ==> (#[trigger] nbrs@[j]).0 == nl[j].0 && nbrs@[j].1@ == nl[j].1,
                self@.nodes.len() <= start.nodes.len() + k,
                self@.edges.len() <= start.edges.len() + k,
                self@.edges_are_moves_from(start.edges.len() as int),
                forall|e: int| start.edges.len() <= e < self@.edges.len() ==> (#[trigger] self@.edges[e]).0 == idx,
                self@.nodes.len() == start.nodes.len() + fresh_boards(start.index_of.dom(), nl.take(k as int)).len(),
                forall|j: int|
                    0 <= j < fresh_boards(start.index_of.dom(), nl.take(k as int)).len() ==> self@.board(
                        start.nodes.len() + j,
                    ) == #[trigger] fresh_boards(start.index_of.dom(), nl.take(k as int))[j],
                forall|h: u64|
                    #[trigger] self@.index_of.contains_key(h) == (start.index_of.contains_key(h) || fresh_boards(
                        start.index_of.dom(),
                        nl.take(k as int),
                    ).map_values(|b: BoardView| spec_board_hash(b)).contains(h)),
                forall|j: int| 0 <= j < k ==> self@.reaches(idx as int, #[trigger] nl[j].1),
                self@.frontier == start.frontier + Self::index_range(start.nodes.len() as int, self@.nodes.len() as int),
                forall|j: int|
                    start.nodes.len() <= j < self@.nodes.len() ==> {
                        &&& !start.index_of.contains_key((#[trigger] self@.nodes[j]).hash)
                        &&& self@.nodes[j].depth == depth + 1
                        &&& self@.nodes[j].parent is None
                        &&& !self@.nodes[j].bfs_expanded
                        &&& exists|kq: int| 0 <= kq < k && self@.nodes[j].node@ == (#[trigger] nl[kq]).1
                    },
            decreases m - k,
        {
            let next = nbrs[k].1.clone();
            let color = nbrs[k].0.color;
            let ghost before = self@;
            assert(next@ == nl[k as int].1);
            let (neighbor, discovered) = self.visit(idx, next, color, depth + 1, Ghost(k as int));
            let ghost after_visit = self@;
            if !discovered {
                self.bfs_frontier.push_back(neighbor);
            }
            proof {
                assert(self@.nodes == after_visit.nodes);
                assert(self@.edges == after_visit.edges);
                assert(self@.index_of == after_visit.index_of);
                lemma_grows_trans(start, before, self@);
                assert forall|j: int| 0 <= j < k + 1 implies self@.reaches(idx as int, #[trigger] nl[j].1) by {
                    if j < k {
                        lemma_reaches_grows(before, self@, idx as int, nl[j].1);
                    }
                }
                assert(self@.frontier =~= start.frontier + Self::index_range(start.nodes.len() as int, self@.nodes.len() as int));
                assert forall|j: int| start.nodes.len() <= j < self@.nodes.len() implies {
                    &&& !start.index_of.contains_key((#[trigger] self@.nodes[j]).hash)
                    &&& self@.nodes[j].depth == depth + 1
                    &&& self@.nodes[j].parent is None
                    &&& !self@.nodes[j].bfs_expanded
                    &&& exists|kq: int| 0 <= kq < k + 1 && self@.nodes[j].node@ == (#[trigger] nl[kq]).1
                } by {
                    if j < before.nodes.len() {
                        assert(self@.nodes[j] == before.nodes[j]);
                        let kq = choose|kq: int| 0 <= kq < k && before.nodes[j].node@ == (#[trigger] nl[kq]).1;
                    } else {
                        assert(self@.nodes[j].node@ == nl[k as int].1);
                        assert(!before.index_of.contains_key(self@.nodes[j].hash));
                        if start.index_of.contains_key(self@.nodes[j].hash) {
                            assert(before.index_of.contains_key(self@.nodes[j].hash));
                        }
                    }
                }
                assert(after_visit.graph_ok()) by {
                    reveal(StateSpaceView::inv);
                }
                lemma_inv_moved(after_visit, self@);
                let known = start.index_of.dom();
                let prev = fresh_boards(known, nl.take(k as int));
                let next_fr = fresh_boards(known, nl.take(k + 1));
                let hk = spec_board_hash(nl[k as int].1);
                assert(nl.take(k + 1).drop_last() =~= nl.take(k as int));
                assert(nl.take(k + 1).last() == nl[k as int]);
                let hashes = |b: BoardView| spec_board_hash(b);
                assert(discovered == (known.contains(hk) || prev.map_values(hashes).contains(hk)));
                if discovered {
                    assert(next_fr == prev);
                } else {
                    assert(next_fr == prev.push(nl[k as int].1));
                    assert(prev.push(nl[k as int].1).map_values(hashes) =~= prev.map_values(hashes).push(hk));
                    assert forall|j: int| 0 <= j < next_fr.len() implies self@.board(start.nodes.len() + j)
                        == #[trigger] next_fr[j] by {
                        if j < prev.len() {
                            assert(self@.nodes[start.nodes.len() + j] == before.nodes[start.nodes.len() + j]);
                        }
                    }
                    assert forall|h: u64| #[trigger] self@.index_of.contains_key(h) == (start.index_of.contains_key(h)
                        || next_fr.map_values(hashes).contains(h)) by {
                        if h != hk {
                            if next_fr.map_values(hashes).contains(h) {
                                let q = choose|q: int| 0 <= q < next_fr.map_values(hashes).len() && next_fr.map_values(hashes)[q] == h;
                                assert(prev.map_values(hashes)[q] == h);
                            }
                            if prev.map_values(hashes).contains(h) {
                                let q = choose|q: int| 0 <= q < prev.map_values(hashes).len() && prev.map_values(hashes)[q] == h;
                                assert(next_fr.map_values(hashes)[q] == h);
                            }
                        } else {
                            assert(next_fr.map_values(hashes)[prev.len() as int] == h);
                        }
                    }
                }
                assert(before.graph_ok()) by {
                    reveal(StateSpaceView::inv);
                }
                lemma_moves_grow(before, self@, start.edges.len() as int);
                lemma_grows_same(after_visit, self@);
                lemma_moves_grow(after_visit, self@, before.edges.len() as int);
            }
            k = k + 1;
        }
        let ghost before_set = self@;
        let node = self.node_at(idx);
        let w = NodeData {
            hash: node.hash,
            node: node.node.clone(),
            parent: node.parent,
            depth: node.depth,
            bfs_expanded: true,
        };
        self.set_node(idx, w);
        proof {
            let fin = self@;
            assert(before_set.closed_at(idx as int)) by {
                assert forall|j: int| 0 <= j < neighbor_list(before_set.board(idx as int)).len() implies before_set.reaches(
                    idx as int,
                    #[trigger] neighbor_list(before_set.board(idx as int))[j].1,
                ) by {
                    assert(before_set.reaches(idx as int, nl[j].1));
                }
            }
            lemma_mark_expanded(before_set, fin, idx as int);
            lemma_grows_trans(start, before_set, fin);
            assert(nl.take(m as int) =~= nl);
            assert forall|j: int|
                0 <= j < fresh_boards(start.index_of.dom(), nl).len() implies fin.board(start.nodes.len() + j)
                == #[trigger] fresh_boards(start.index_of.dom(), nl)[j] by {
                assert(fin.nodes[start.nodes.len() + j] == before_set.nodes[start.nodes.len() + j]);
            }
            assert(before_set.graph_ok()) by {
                reveal(StateSpaceView::inv);
            }
            lemma_moves_grow(before_set, fin, start.edges.len() as int);
        }
        board
    }

    /// Refills the breadth-first queue with every node not yet expanded, by
    /// depth. Returns whether there was any.
    fn rebuild_bfs_frontier(&mut self) -> (r: bool)
        requires
            old(self).inv(),
        ensures
            final(self).inv(),
            final(self)@.nodes == old(self)@.nodes,
            final(self)@.edges == old(self)@.edges,
            final(self)@.index_of == old(self)@.index_of,
            final(self)@.current == old(self)@.current,
            final(self)@.mode == old(self)@.mode,
            r == !old(self)@.all_expanded(),
            r ==> final(self)@.frontier == old(self)@.rebuilt_frontier(),
            r ==> final(self)@.frontier.len() > 0,
            r ==> forall|k: int|
                0 <= k < final(self)@.frontier.len() ==> !final(self)@.nodes[(#[trigger] final(self)@.frontier[k]) as int].bfs_expanded,
            !r ==> final(self)@.frontier == old(self)@.frontier,
    {
        let ghost start = self@;
        proof {
            reveal(StateSpaceView::inv);
        }
        let n = self.state_count();
        let mut pending: Vec<(u32, u32)> = Vec::new();
        let mut i: usize = 0;
        while i < n
            invariant
                self@ == start,
                self.inv(),
                n == start.nodes.len(),
                i <= n,
                pending@ == start.unexpanded_upto(i as int),
                n < u32::MAX,
            decreases n - i,
        {
            let node = self.node_at(i as u32);
            if !node.bfs_expanded {
                pending.push((node.depth, i as u32));
            }
            i = i + 1;
        }
        proof {
            lemma_unexpanded_upto(start, n as int);
        }
        if pending.len() == 0 {
            return false;
        }
        let ghost pend = pending@;
        let sorted = sort_pairs(pending);
        proof {
            lemma_pair_order_total();
            pend.lemma_sort_by_ensures(pair_order());
        }
        let m = sorted.len();
        let mut queue: VecDeque<u32> = VecDeque::new();
        let mut j: usize = 0;
        while j < m
            invariant
                m == sorted@.len(),
                j <= m,
                queue@ == sorted@.take(j as int).map_values(|p: (u32, u32)| p.1),
            decreases m - j,
        {
            queue.push_back(sorted[j].1);
            j = j + 1;
            assert(queue@ =~= sorted@.take(j as int).map_values(|p: (u32, u32)| p.1));
        }
        self.bfs_frontier = queue;
        proof {
            assert(sorted@.take(m as int) =~= sorted@);
            assert(self@.frontier == start.rebuilt_frontier());
            broadcast use vstd::seq_lib::group_to_multiset_ensures;

            assert(sorted@.to_multiset().len() == pend.to_multiset().len());
            assert(sorted@.len() == pend.len());
            assert forall|k: int| 0 <= k < self@.frontier.len() implies {
                &&& (#[trigger] self@.frontier[k]) < self@.nodes.len()
                &&& !self@.nodes[self@.frontier[k] as int].bfs_expanded
            } by {
                let p = sorted@[k];
                assert(sorted@.contains(p));
                assert(pend.contains(p));
                let q = choose|q: int| 0 <= q < pend.len() && pend[q] == p;
                assert(pend[q] == p);
            }
            assert(self@.nodes == start.nodes);
            lemma_inv_moved(start, self@);
        }
        true
    }

    /// One step of the breadth-first walk: expands the next node off the queue
    /// that is not expanded yet, rebuilding the queue if it runs dry. Returns
    /// that node's board, or `None` once every node is expanded.
    #[verifier::spinoff_prover]
    #[verifier::rlimit(80)]
    fn explore_bfs(&mut self) -> (r: Option<Board>)
        requires
            old(self).inv(),
            old(self)@.bfs_room(),
        ensures
            final(self).inv(),
            old(self)@.grows_to(final(self)@),
            final(self)@.mode == old(self)@.mode,
            final(self)@.block_count() == old(self)@.block_count(),
            forall|i: int|
                0 <= i < old(self)@.nodes.len() ==> (#[trigger] final(self)@.nodes[i]).parent == old(
                    self,
                )@.nodes[i].parent,
            final(self)@.nodes.len() <= old(self)@.nodes.len() + 4 * old(self)@.block_count(),
            final(self)@.edges.len() <= old(self)@.edges.len() + 4 * old(self)@.block_count(),
            final(self)@.edges_are_moves_from(old(self)@.edges.len() as int),
            r is None ==> {
                &&& final(self)@.nodes == old(self)@.nodes
                &&& final(self)@.edges == old(self)@.edges
                &&& final(self)@.index_of == old(self)@.index_of
                &&& final(self)@.current == old(self)@.current
                &&& old(self)@.all_expanded()
                &&& final(self)@.all_closed()
            },
            r is Some ==> final(self)@.current < old(self)@.nodes.len(),
            r is Some ==> !old(self)@.nodes[final(self)@.current as int].bfs_expanded,
            r is Some ==> final(self)@.nodes[final(self)@.current as int].bfs_expanded,
            r matches Some(b) ==> b@ == final(self)@.board(final(self)@.current as int),
            r is Some ==> final(self)@.closed_at(final(self)@.current as int),
            r is Some ==> forall|k: int|
                old(self)@.edges.len() <= k < final(self)@.edges.len() ==> (#[trigger] final(self)@.edges[k]).0
                    == final(self)@.current,
            r is Some ==> forall|i: int|
                0 <= i < old(self)@.nodes.len() && i != final(self)@.current ==> #[trigger] final(self)@.nodes[i]
                    == old(self)@.nodes[i],
            r matches Some(b) ==> old(self)@.new_nodes_from(
                final(self)@,
                b@,
                old(self)@.nodes[final(self)@.current as int].depth + 1,
            ),
            r matches Some(b) ==> final(self)@.nodes.len() == old(self)@.nodes.len() + fresh_boards(
                old(self)@.index_of.dom(),
                neighbor_list(b@),
            ).len(),
            r matches Some(b) ==> forall|j: int|
                0 <= j < fresh_boards(old(self)@.index_of.dom(), neighbor_list(b@)).len() ==> final(self)@.board(
                    old(self)@.nodes.len() + j,
                ) == #[trigger] fresh_boards(old(self)@.index_of.dom(), neighbor_list(b@))[j],
            r is Some && (exists|k: int| old(self)@.first_unexpanded_at(old(self)@.frontier, k)) ==> exists|k: int|
                {
                    &&& old(self)@.first_unexpanded_at(old(self)@.frontier, k)
                    &&& final(self)@.current == old(self)@.frontier[k]
                    &&& final(self)@.frontier == old(self)@.frontier.skip(k + 1) + Self::index_range(
                        old(self)@.nodes.len() as int,
                        final(self)@.nodes.len() as int,
                    )
                },
            r is Some && !(exists|k: int| old(self)@.first_unexpanded_at(old(self)@.frontier, k)) ==> {
                &&& final(self)@.current == old(self)@.rebuilt_frontier()[0]
                &&& final(self)@.frontier == old(self)@.rebuilt_frontier().skip(1) + Self::index_range(
                    old(self)@.nodes.len() as int,
                    final(self)@.nodes.len() as int,
                )
            },
            r is None ==> !(exists|k: int| old(self)@.first_unexpanded_at(old(self)@.frontier, k))
                && final(self)@.frontier.len() == 0,
    {
        let ghost start = self@;
        let ghost mut rebuilt: bool = false;
        let ghost mut popped: int = 0;
        loop
            invariant
                self.inv(),
                start == old(self)@,
                start.inv(),
                start.bfs_room(),
                self@.nodes == start.nodes,
                self@.edges == start.edges,
                self@.index_of == start.index_of,
                self@.current == start.current,
                self@.mode == start.mode,
                rebuilt ==> self@.frontier.len() > 0,
                rebuilt ==> forall|k: int|
                    0 <= k < self@.frontier.len() ==> !self@.nodes[(#[trigger] self@.frontier[k]) as int].bfs_expanded,
                0 <= popped <= start.frontier.len(),
                forall|j: int| 0 <= j < popped ==> start.nodes[(#[trigger] start.frontier[j]) as int].bfs_expanded,
                !rebuilt ==> self@.frontier == start.frontier.skip(popped),
                rebuilt ==> self@.frontier == start.rebuilt_frontier() && popped == start.frontier.len(),
            decreases (if rebuilt { 0int } else { 1int }), self@.frontier.len(),
        {
            let ghost before = self@;
            proof {
                assert(before.graph_ok()) by {
                    reveal(StateSpaceView::inv);
                }
            }
            match self.bfs_frontier.pop_front() {
                None => {
                    proof {
                        if !rebuilt {
                            assert(start.frontier.skip(popped).len() == 0);
                        }
                        assert forall|k: int| !start.first_unexpanded_at(start.frontier, k) by {
                            if start.first_unexpanded_at(start.frontier, k) {
                                assert(start.nodes[start.frontier[k] as int].bfs_expanded);
                            }
                        }
                        lemma_unexpanded_same(before, start, before.nodes.len() as int);
                        assert(before.rebuilt_frontier() == start.rebuilt_frontier());
                    }
                    if !self.rebuild_bfs_frontier() {
                        proof {
                            assert(self@.expanded_closed()) by {
                                reveal(StateSpaceView::inv);
                            }
                            lemma_grows_same(start, self@);
                            assert forall|i: int| 0 <= i < self@.nodes.len() implies #[trigger] self@.closed_at(i) by {
                                assert(self@.nodes[i].bfs_expanded);
                            }
                        }
                        return None;
                    }
                    proof {
                        if rebuilt {
                            assert(false);
                        }
                        rebuilt = true;
                    }
                },
                Some(idx) => {
                    proof {
                        assert(before.frontier[0] == idx);
                        assert(self@.frontier =~= before.frontier.subrange(1, before.frontier.len() as int));
                        assert forall|k: int| 0 <= k < self@.frontier.len() implies (#[trigger] self@.frontier[k]) < self@.nodes.len() by {
                            assert(self@.frontier[k] == before.frontier[k + 1]);
                        }
                        lemma_inv_moved(before, self@);
                        if rebuilt {
                            assert(!before.nodes[before.frontier[0] as int].bfs_expanded);
                        }
                        assert(idx < self@.nodes.len());
                    }
                    proof {
                        if !rebuilt {
                            assert(idx == start.frontier[popped]);
                            assert(self@.frontier =~= start.frontier.skip(popped + 1));
                        } else {
                            assert(idx == start.rebuilt_frontier()[0]);
                            assert(self@.frontier =~= start.rebuilt_frontier().skip(1));
                        }
                    }
                    let expanded = self.node_at(idx).bfs_expanded;
                    if expanded {
                        proof {
                            if rebuilt {
                                assert(false);
                            }
                            popped = popped + 1;
                        }
                        continue;
                    }
                    proof {
                        if !rebuilt {
                            assert(start.first_unexpanded_at(start.frontier, popped));
                        } else {
                            assert forall|k: int| !start.first_unexpanded_at(start.frontier, k) by {
                                if start.first_unexpanded_at(start.frontier, k) {
                                    assert(start.nodes[start.frontier[k] as int].bfs_expanded);
                                }
                            }
                        }
                    }
                    let ghost pre = self@;
                    proof {
                        lemma_grows_same(start, pre);
                    }
                    let board = self.expand_bfs(idx);
                    proof {
                        lemma_grows_trans(start, pre, self@);
                        assert(self@.closed_at(idx as int)) by {
                            reveal(StateSpaceView::inv);
                        }
                    }
                    return Some(board);
                },
            }
        }
    }

    /// Looks at every board one move from the current node, in order, finding
    /// or adding its node and joining it to the current node, until one is new.
    /// The walk then steps into the new node, which records the current node
    /// as its parent, and the new node is returned. If none is new, the
    /// current node is left closed and `None` is returned.
    #[verifier::spinoff_prover]
    #[verifier::rlimit(60)]
    fn dfs_pass(&mut self) -> (r: Option<u32>)
        requires
            old(self).inv(),
            old(self)@.nodes.len() + 4 * old(self)@.block_count() < u32::MAX,
            old(self)@.edges.len() + 4 * old(self)@.block_count() < u32::MAX,
        ensures
            final(self).inv(),
            old(self)@.grows_to(final(self)@),
            final(self)@.mode == old(self)@.mode,
            final(self)@.frontier == old(self)@.frontier,
            final(self)@.block_count() == old(self)@.block_count(),
            forall|i: int| 0 <= i < old(self)@.nodes.len() ==> #[trigger] final(self)@.nodes[i] == old(self)@.nodes[i],
            final(self)@.edges.len() <= old(self)@.edges.len() + 4 * old(self)@.block_count(),
            final(self)@.edges_are_moves_from(old(self)@.edges.len() as int),
            forall|k: int|
                old(self)@.edges.len() <= k < final(self)@.edges.len() ==> (#[trigger] final(self)@.edges[k]).0
                    == old(self)@.current,
            r is None ==> {
                &&& final(self)@.nodes == old(self)@.nodes
                &&& final(self)@.index_of == old(self)@.index_of
                &&& final(self)@.current == old(self)@.current
                &&& final(self)@.closed_at(final(self)@.current as int)
            },
            r matches Some(m) ==> {
                &&& m == old(self)@.nodes.len()
                &&& final(self)@.nodes.len() == old(self)@.nodes.len() + 1
                &&& final(self)@.current == m
                &&& final(self)@.nodes[m as int].parent == Some(old(self)@.current)
                &&& final(self)@.nodes[m as int].depth == old(self)@.nodes[old(self)@.current as int].depth + 1
                &&& !final(self)@.nodes[m as int].bfs_expanded
                &&& !old(self)@.index_of.contains_key(final(self)@.nodes[m as int].hash)
                &&& exists|k: int|
                    old(self)@.first_new_neighbor(old(self)@.current as int, k)
                        && final(self)@.nodes[m as int].node@ == (#[trigger] neighbor_list(
                        old(self)@.board(old(self)@.current as int),
                    )[k]).1 && forall|j: int|
                        0 <= j <= k ==> final(self)@.reaches(
                            old(self)@.current as int,
                            #[trigger] neighbor_list(old(self)@.board(old(self)@.current as int))[j].1,
                        )
            },
            r is None ==> old(self)@.knows_all_neighbors(old(self)@.current as int),
    {
        let ghost start = self@;
        let c = self.current;
        proof {
            assert(start.nodes[c as int].depth <= c && start.graph_ok() && start.nodes[c as int].node@.blocks.len() == start.block_count()) by {
                reveal(StateSpaceView::inv);
            }
        }
        let node = self.node_at(c);
        let board = node.node.clone();
        let depth = node.depth;
        let nbrs = board.neighbors();
        let m = nbrs.len();
        let ghost nl = neighbor_list(board@);
        let ghost kk = start.block_count();
        proof {
            lemma_neighbor_shape(board@);
        }
        let mut k: usize = 0;
        while k < m
            invariant
                self.inv(),
                start == old(self)@,
                start.grows_to(self@),
                self@.nodes == start.nodes,
                self@.index_of == start.index_of,
                self@.current == c,
                c == start.current,
                self@.mode == start.mode,
                self@.frontier == start.frontier,
                self@.block_count() == kk,
                kk == start.block_count(),
                start.nodes.len() + 4 * kk < u32::MAX,
                start.edges.len() + 4 * kk < u32::MAX,
                c < start.nodes.len(),
                k <= m,
                m == nl.len(),
                nl == neighbor_list(board@),
                board@ == start.board(c as int),
                depth == start.nodes[c as int].depth,
                depth <= c,
                m <= 4 * kk,
                forall|j: int| 0 <= j < m ==> (#[trigger] nl[j]).1.blocks.len() == kk,
                nbrs@.len() == m,
                forall|j: int| 0 <= j < m ==> (#[trigger] nbrs@[j]).0 == nl[j].0 && nbrs@[j].1@ == nl[j].1,
                self@.edges.len() <= start.edges.len() + k,
                self@.edges_are_moves_from(start.edges.len() as int),
                forall|e: int| start.edges.len() <= e < self@.edges.len() ==> (#[trigger] self@.edges[e]).0 == c,
                forall|j: int| 0 <= j < k ==> self@.reaches(c as int, #[trigger] nl[j].1),
                forall|j: int| 0 <= j < k ==> start.knows_board(#[trigger] nl[j].1),
            decreases m - k,
        {
            let next = nbrs[k].1.clone();
            let color = nbrs[k].0.color;
            let ghost before = self@;
            assert(next@ == nl[k as int].1);
            let (neighbor, discovered) = self.visit(c, next, color, depth + 1, Ghost(k as int));
            proof {
                lemma_grows_trans(start, before, self@);
                assert(before.graph_ok()) by {
                    reveal(StateSpaceView::inv);
                }
                lemma_moves_grow(before, self@, start.edges.len() as int);
            }
            if !discovered {
                let ghost after_visit = self@;
                let nd = self.node_at(neighbor);
                let w = NodeData {
                    hash: nd.hash,
                    node: nd.node.clone(),
                    parent: Some(c),
                    depth: nd.depth,
                    bfs_expanded: nd.bfs_expanded,
                };
                self.set_node(neighbor, w);
                self.current = neighbor;
                proof {
                    assert(depth < after_visit.nodes[neighbor as int].depth);
                    lemma_set_parent(after_visit, self@, neighbor as int, c as int);
                    lemma_grows_trans(start, after_visit, self@);
                    assert(after_visit.graph_ok()) by {
                        reveal(StateSpaceView::inv);
                    }
                    lemma_moves_grow(after_visit, self@, start.edges.len() as int);
                    assert(self@.nodes[neighbor as int].node@ == nl[k as int].1);
                    assert(!start.index_of.contains_key(self@.nodes[neighbor as int].hash));
                    assert forall|i: int| 0 <= i < start.nodes.len() implies #[trigger] self@.nodes[i] == start.nodes[i] by {
                        assert(after_visit.nodes[i] == start.nodes[i]);
                    }
                    assert(start.board(c as int) == board@);
                    assert(start.first_new_neighbor(c as int, k as int));
                    assert forall|j: int| 0 <= j <= k implies self@.reaches(c as int, #[trigger] nl[j].1) by {
                        if j < k {
                            lemma_reaches_grows(before, after_visit, c as int, nl[j].1);
                        }
                        lemma_reaches_grows(after_visit, self@, c as int, nl[j].1);
                    }
                }
                return Some(neighbor);
            }
            proof {
                assert forall|j: int| 0 <= j < k + 1 implies self@.reaches(c as int, #[trigger] nl[j].1) by {
                    if j < k {
                        lemma_reaches_grows(before, self@, c as int, nl[j].1);
                    }
                }
                assert(start.knows_board(nl[k as int].1));
            }
            k = k + 1;
        }
        proof {
            assert forall|j: int| 0 <= j < neighbor_list(self@.board(c as int)).len() implies self@.reaches(
                c as int,
                #[trigger] neighbor_list(self@.board(c as int))[j].1,
            ) by {
                assert(self@.reaches(c as int, nl[j].1));
            }
            assert(start.board(c as int) == board@);
            assert forall|j: int| 0 <= j < neighbor_list(start.board(c as int)).len() implies start.knows_board(
                #[trigger] neighbor_list(start.board(c as int))[j].1,
            ) by {
                assert(start.knows_board(nl[j].1));
            }
        }
        None
    }

    /// The lowest index of a node not expanded yet, if there is one.
    fn first_unexpanded(&self) -> (r: Option<u32>)
        requires
            self.inv(),
        ensures
            match r {
                None => self@.all_expanded(),
                Some(i) => i < self@.nodes.len() && !self@.nodes[i as int].bfs_expanded && forall|j: int|
                    0 <= j < i ==> (#[trigger] self@.nodes[j]).bfs_expanded,
            },
    {
        proof {
            lemma_inv_basics(self@);
        }
        let n = self.state_count();
        let mut i: usize = 0;
        while i < n
            invariant
                self.inv(),
                n == self@.nodes.len(),
                n < u32::MAX,
                i <= n,
                forall|j: int| 0 <= j < i ==> (#[trigger] self@.nodes[j]).bfs_expanded,
            decreases n - i,
        {
            if !self.node_at(i as u32).bfs_expanded {
                return Some(i as u32);
            }
            i = i + 1;
        }
        None
    }

    /// One step of the depth-first walk. At a node not expanded yet, look at
    /// every board one move away, in order, finding or adding its node and
    /// joining it to this one, and step into the first that is new. A node
    /// with no new neighbor is marked expanded, and the walk backs out along
    /// its parent link; at a node with no parent it resumes at the first node
    /// not expanded yet. Returns the board stepped into, or `None` once every
    /// node is expanded.
    #[verifier::spinoff_prover]
    #[verifier::rlimit(80)]
    fn explore_dfs(&mut self) -> (r: Option<Board>)
        requires
            old(self).inv(),
            old(self)@.dfs_room(),
        ensures
            final(self).inv(),
            old(self)@.grows_to(final(self)@),
            final(self)@.mode == old(self)@.mode,
            final(self)@.frontier == old(self)@.frontier,
            final(self)@.block_count() == old(self)@.block_count(),
            forall|i: int|
                0 <= i < old(self)@.nodes.len() ==> (#[trigger] final(self)@.nodes[i]).parent == old(
                    self,
                )@.nodes[i].parent && (old(self)@.nodes[i].bfs_expanded ==> final(self)@.nodes[i].bfs_expanded),
            final(self)@.nodes.len() <= old(self)@.nodes.len() + 1,
            final(self)@.edges.len() <= old(self)@.edges.len() + 4 * old(self)@.block_count() * old(self)@.nodes.len(),
            final(self)@.edges_are_moves_from(old(self)@.edges.len() as int),
            old(self)@.all_expanded() ==> final(self)@.nodes == old(self)@.nodes
                && final(self)@.edges == old(self)@.edges,
            r is None ==> old(self)@.dfs_source() is None,
            r is Some ==> old(self)@.dfs_source() == Some(
                final(self)@.nodes[final(self)@.current as int].parent->0 as int,
            ),
            r is None ==> {
                &&& final(self)@.nodes.len() == old(self)@.nodes.len()
                &&& final(self)@.all_expanded()
                &&& final(self)@.all_closed()
            },
            r matches Some(b) ==> {
                let m = final(self)@.current as int;
                let p = final(self)@.nodes[m].parent->0 as int;
                &&& m == old(self)@.nodes.len()
                &&& final(self)@.nodes.len() == old(self)@.nodes.len() + 1
                &&& b@ == final(self)@.board(m)
                &&& final(self)@.nodes[m].parent is Some
                &&& p < old(self)@.nodes.len()
                &&& final(self)@.nodes[m].depth == old(self)@.nodes[p].depth + 1
                &&& !final(self)@.nodes[m].bfs_expanded
                &&& !final(self)@.nodes[p].bfs_expanded
                &&& !old(self)@.index_of.contains_key(final(self)@.nodes[m].hash)
                &&& exists|k: int|
                    old(self)@.first_new_neighbor(p, k) && b@ == (#[trigger] neighbor_list(
                        old(self)@.board(p),
                    )[k]).1 && forall|j: int|
                        0 <= j <= k ==> final(self)@.reaches(p, #[trigger] neighbor_list(old(self)@.board(p))[j].1)
            },
    {
        let ghost start = self@;
        let ghost kk = start.block_count();
        let ghost u0 = unexpanded_count(start.nodes);
        proof {
            lemma_unexpanded_count_bounds(start.nodes, 0);
            assert(4 * kk * u0 <= 4 * kk * start.nodes.len()) by (nonlinear_arith)
                requires
                    u0 <= start.nodes.len(),
            ;
        }
        let ghost mut marked: Set<int> = Set::empty();
        loop
            invariant
                self.inv(),
                start == old(self)@,
                start.dfs_room(),
                forall|i: int|
                    0 <= i < start.nodes.len() ==> (#[trigger] self@.nodes[i]).bfs_expanded == start.done_with(
                        marked,
                        i,
                    ),
                start.dfs_walk(marked, self@.current as int) == start.dfs_source(),
                kk == start.block_count(),
                self@.block_count() == kk,
                u0 == unexpanded_count(start.nodes),
                4 * kk * u0 <= 4 * kk * start.nodes.len(),
                start.grows_to(self@),
                self@.nodes.len() == start.nodes.len(),
                self@.index_of == start.index_of,
                self@.frontier == start.frontier,
                self@.mode == start.mode,
                forall|i: int|
                    0 <= i < start.nodes.len() ==> (#[trigger] self@.nodes[i]).parent == start.nodes[i].parent
                        && (start.nodes[i].bfs_expanded ==> self@.nodes[i].bfs_expanded),
                self@.edges.len() + 4 * kk * unexpanded_count(self@.nodes) <= start.edges.len() + 4 * kk * u0,
                self@.edges_are_moves_from(start.edges.len() as int),
                start.all_expanded() ==> self@.nodes == start.nodes && self@.edges == start.edges,
            decreases unexpanded_count(self@.nodes), (if self@.nodes[self@.current as int].bfs_expanded {
                1int
            } else {
                0int
            }), self@.nodes[self@.current as int].depth,
        {
            let ghost before = self@;
            proof {
                lemma_inv_basics(before);
                assert(before.graph_ok()) by {
                    reveal(StateSpaceView::inv);
                }
            }
            let c = self.current;
            let expanded = self.node_at(c).bfs_expanded;
            let parent = self.node_at(c).parent;
            if !expanded {
                proof {
                    if start.all_expanded() {
                        assert(start.nodes[c as int].bfs_expanded);
                    }
                }
                let ghost uc = unexpanded_count(before.nodes);
                proof {
                    lemma_unexpanded_count_bounds(before.nodes, c as int);
                    assert(4 * kk <= 4 * kk * uc) by (nonlinear_arith)
                        requires
                            uc >= 1,
                    ;
                }
                match self.dfs_pass() {
                    Some(m) => {
                        let b = self.node_at(m).node.clone();
                        proof {
                            let w = self@;
                            lemma_grows_trans(start, before, w);
                            lemma_moves_grow(before, w, start.edges.len() as int);
                            assert(w.nodes[m as int].parent == Some(c));
                            assert(w.nodes[c as int] == before.nodes[c as int]);
                            assert(start.board(c as int) == before.board(c as int));
                            let kq = choose|kq: int|
                                before.first_new_neighbor(c as int, kq) && w.nodes[m as int].node@ == (#[trigger] neighbor_list(
                                    before.board(c as int),
                                )[kq]).1 && forall|j: int|
                                    0 <= j <= kq ==> w.reaches(
                                        c as int,
                                        #[trigger] neighbor_list(before.board(c as int))[j].1,
                                    );
                            assert(start.first_new_neighbor(c as int, kq)) by {
                                assert forall|j: int| 0 <= j < kq implies start.knows_board(
                                    #[trigger] neighbor_list(start.board(c as int))[j].1,
                                ) by {
                                    assert(before.knows_board(neighbor_list(before.board(c as int))[j].1));
                                }
                            }
                            assert(w.nodes[c as int].depth == start.nodes[c as int].depth);
                            assert(!before.knows_board(neighbor_list(before.board(c as int))[kq].1));
                            assert(!before.knows_all_neighbors(c as int));
                            lemma_knows_all_same(before, start, c as int);
                            assert(!start.done_with(marked, c as int));
                            assert(start.dfs_walk(marked, c as int) == Some(c as int));
                            assert forall|i: int| 0 <= i < start.nodes.len() implies (#[trigger] w.nodes[i]).parent
                                == start.nodes[i].parent && (start.nodes[i].bfs_expanded
                                ==> w.nodes[i].bfs_expanded) by {
                                assert(w.nodes[i] == before.nodes[i]);
                            }
                        }
                        return Some(b);
                    },
                    None => {
                        let ghost mid = self@;
                        let nd = self.node_at(c);
                        let w = NodeData {
                            hash: nd.hash,
                            node: nd.node.clone(),
                            parent: nd.parent,
                            depth: nd.depth,
                            bfs_expanded: true,
                        };
                        self.set_node(c, w);
                        proof {
                            let fin = self@;
                            lemma_mark_expanded(mid, fin, c as int);
                            lemma_grows_trans(start, before, mid);
                            lemma_grows_trans(start, mid, fin);
                            lemma_moves_grow(before, mid, start.edges.len() as int);
                            assert(mid.graph_ok()) by {
                                reveal(StateSpaceView::inv);
                            }
                            lemma_moves_grow(mid, fin, start.edges.len() as int);
                            lemma_unexpanded_count_mark(mid.nodes, fin.nodes, c as int);
                            assert(4 * kk * uc == 4 * kk * (uc - 1) + 4 * kk) by (nonlinear_arith);
                            assert(start.board(c as int) == before.board(c as int));
                            lemma_knows_all_same(before, start, c as int);
                            assert(!start.done_with(marked, c as int));
                            assert(start.dfs_walk(marked, c as int) == start.dfs_walk(marked.insert(c as int), c as int));
                            marked = marked.insert(c as int);
                            assert forall|i: int| 0 <= i < start.nodes.len() implies (#[trigger] fin.nodes[i]).bfs_expanded
                                == start.done_with(marked, i) by {
                                if i != c {
                                    assert(fin.nodes[i] == mid.nodes[i]);
                                }
                            }
                        }
                    },
                }
            } else {
                match parent {
                    Some(p) => {
                        self.current = p;
                        proof {
                            let w = self@;
                            assert(start.nodes[c as int].parent == Some(p));
                            assert(before.nodes[p as int].depth == start.nodes[p as int].depth);
                            assert(before.nodes[c as int].depth == start.nodes[c as int].depth);
                            assert(start.done_with(marked, c as int));
                            assert(start.dfs_walk(marked, c as int) == start.dfs_walk(marked, p as int));
                            lemma_inv_moved(before, w);
                            lemma_grows_same(before, w);
                            lemma_grows_trans(start, before, w);
                            lemma_moves_grow(before, w, start.edges.len() as int);
                        }
                    },
                    None => {
                        match self.first_unexpanded() {
                            None => {
                                proof {
                                    assert(start.nodes[c as int].parent is None);
                                    assert(start.done_with(marked, c as int));
                                    assert forall|t: int| !start.first_pending(marked, t) by {
                                        if 0 <= t < start.nodes.len() {
                                            assert(before.nodes[t].bfs_expanded);
                                        }
                                    }
                                    assert(start.dfs_walk(marked, c as int) is None);
                                    assert(before.expanded_closed()) by {
                                        reveal(StateSpaceView::inv);
                                    }
                                    assert forall|i: int| 0 <= i < before.nodes.len() implies #[trigger] before.closed_at(i) by {
                                        assert(before.nodes[i].bfs_expanded);
                                    }
                                }
                                return None;
                            },
                            Some(t) => {
                                self.current = t;
                                proof {
                                    let w = self@;
                                    assert(start.nodes[c as int].parent is None);
                                    assert(start.done_with(marked, c as int));
                                    assert forall|j: int| 0 <= j < t implies #[trigger] start.done_with(marked, j) by {
                                        assert(before.nodes[j].bfs_expanded);
                                    }
                                    assert(start.first_pending(marked, t as int));
                                    let ct = choose|ct: int| start.first_pending(marked, ct);
                                    lemma_first_pending_unique(start, marked, ct, t as int);
                                    assert(start.dfs_walk(marked, c as int) == start.dfs_walk(marked, t as int));
                                    lemma_inv_moved(before, w);
                                    lemma_grows_same(before, w);
                                    lemma_grows_trans(start, before, w);
                                    lemma_moves_grow(before, w, start.edges.len() as int);
                                }
                            },
                        }
                    },
                }
            }
        }
    }

    /// Explores the next state of the reachable state space, following
    /// [`StateSpace::mode`]. Returns the board reached this step, or `None`
    /// once every node is expanded, which leaves every move out of every
    /// state in the graph, whatever modes earlier steps used.
    #[verifier::spinoff_prover]
    #[verifier::rlimit(60)]
    pub fn explore(&mut self) -> (r: Option<Board>)
        requires
            old(self).inv(),
            old(self)@.has_room(),
        ensures
            final(self).inv(),
            old(self)@.grows_to(final(self)@),
            final(self)@.edges_are_moves_from(old(self)@.edges.len() as int),
            old(self)@.edges_are_moves_from(0) ==> final(self)@.edges_are_moves_from(0),
            old(self)@.mode == ExploreMode::Breadth && old(self)@.bfs_layered() && old(self)@.hashes_faithful()
                ==> final(self)@.bfs_layered(),
            old(self)@.mode == ExploreMode::Breadth && old(self)@.bfs_layered() && r is Some ==> forall|i: int|
                0 <= i < old(self)@.nodes.len() && (#[trigger] old(self)@.nodes[i]).bfs_expanded ==> old(
                    self,
                )@.depth(i) <= old(self)@.depth(final(self)@.current as int),
            final(self)@.mode == old(self)@.mode,
            final(self)@.block_count() == old(self)@.block_count(),
            forall|i: int|
                0 <= i < old(self)@.nodes.len() ==> (#[trigger] final(self)@.nodes[i]).parent == old(
                    self,
                )@.nodes[i].parent,
            old(self)@.mode == ExploreMode::Breadth ==> {
                &&& r is None ==> final(self)@.nodes == old(self)@.nodes && final(self)@.edges
                    == old(self)@.edges && old(self)@.all_expanded() && final(self)@.all_closed()
                &&& r matches Some(b) ==> {
                    let c = final(self)@.current as int;
                    &&& c < old(self)@.nodes.len()
                    &&& !old(self)@.nodes[c].bfs_expanded
                    &&& final(self)@.nodes[c].bfs_expanded
                    &&& b@ == final(self)@.board(c)
                    &&& final(self)@.closed_at(c)
                    &&& forall|k: int|
                        old(self)@.edges.len() <= k < final(self)@.edges.len() ==> (#[trigger] final(self)@.edges[k]).0
                            == c
                    &&& forall|i: int|
                        0 <= i < old(self)@.nodes.len() && i != c ==> #[trigger] final(self)@.nodes[i]
                            == old(self)@.nodes[i]
                    &&& old(self)@.new_nodes_from(final(self)@, b@, old(self)@.nodes[c].depth + 1)
                    &&& final(self)@.nodes.len() == old(self)@.nodes.len() + fresh_boards(
                        old(self)@.index_of.dom(),
                        neighbor_list(b@),
                    ).len()
                    &&& forall|j: int|
                        0 <= j < fresh_boards(old(self)@.index_of.dom(), neighbor_list(b@)).len()
                            ==> final(self)@.board(old(self)@.nodes.len() + j) == #[trigger] fresh_boards(
                            old(self)@.index_of.dom(),
                            neighbor_list(b@),
                        )[j]
                }
                &&& r is Some && (exists|k: int| old(self)@.first_unexpanded_at(old(self)@.frontier, k)) ==> exists|k: int|
                    {
                        &&& old(self)@.first_unexpanded_at(old(self)@.frontier, k)
                        &&& final(self)@.current == old(self)@.frontier[k]
                        &&& final(self)@.frontier == old(self)@.frontier.skip(k + 1) + Self::index_range(
                            old(self)@.nodes.len() as int,
                            final(self)@.nodes.len() as int,
                        )
                    }
                &&& r is Some && !(exists|k: int| old(self)@.first_unexpanded_at(old(self)@.frontier, k)) ==> {
                    &&& final(self)@.current == old(self)@.rebuilt_frontier()[0]
                    &&& final(self)@.frontier == old(self)@.rebuilt_frontier().skip(1) + Self::index_range(
                        old(self)@.nodes.len() as int,
                        final(self)@.nodes.len() as int,
                    )
                }
                &&& r is None ==> final(self)@.frontier.len() == 0
            },
            old(self)@.mode == ExploreMode::Depth ==> {
                &&& final(self)@.frontier == old(self)@.frontier
                &&& forall|i: int|
                    0 <= i < old(self)@.nodes.len() && old(self)@.nodes[i].bfs_expanded
                        ==> (#[trigger] final(self)@.nodes[i]).bfs_expanded
                &&& r is None ==> final(self)@.nodes.len() == old(self)@.nodes.len() && final(self)@.all_expanded()
                &&& r is None ==> old(self)@.dfs_source() is None
                &&& r matches Some(b) ==> {
                    let m = final(self)@.current as int;
                    let p = final(self)@.nodes[m].parent->0 as int;
                    &&& old(self)@.dfs_source() == Some(p)
                    &&& m == old(self)@.nodes.len()
                    &&& final(self)@.nodes.len() == old(self)@.nodes.len() + 1
                    &&& b@ == final(self)@.board(m)
                    &&& final(self)@.nodes[m].parent is Some
                    &&& p < old(self)@.nodes.len()
                    &&& final(self)@.nodes[m].depth == old(self)@.nodes[p].depth + 1
                    &&& !final(self)@.nodes[m].bfs_expanded
                    &&& !final(self)@.nodes[p].bfs_expanded
                    &&& !old(self)@.index_of.contains_key(final(self)@.nodes[m].hash)
                    &&& exists|k: int|
                        old(self)@.first_new_neighbor(p, k) && b@ == (#[trigger] neighbor_list(
                            old(self)@.board(p),
                        )[k]).1 && forall|j: int|
                            0 <= j <= k ==> final(self)@.reaches(p, #[trigger] neighbor_list(old(self)@.board(p))[j].1)
                }
            },
            r is None ==> final(self)@.all_closed() && final(self)@.all_expanded(),
            old(self)@.boards_wf() ==> final(self)@.boards_wf(),
            old(self)@.depths_witnessed() ==> final(self)@.depths_witnessed(),
            old(self)@.mode == ExploreMode::Breadth && r is Some ==> final(self)@.nodes.len() - unexpanded_count(
                final(self)@.nodes,
            ) == old(self)@.nodes.len() - unexpanded_count(old(self)@.nodes) + 1,
            old(self)@.all_expanded() ==> r is None && final(self)@.nodes == old(self)@.nodes
                && final(self)@.edges == old(self)@.edges,
            final(self)@.nodes.len() <= old(self)@.nodes.len() + 4 * old(self)@.block_count(),
            final(self)@.edges.len() <= old(self)@.edges.len() + 4 * old(self)@.block_count() * old(self)@.nodes.len(),
    {
        let ghost start = self@;
        proof {
            lemma_inv_basics(start);
            assert(4 * start.block_count() <= 4 * start.block_count() * start.nodes.len()) by (nonlinear_arith)
                requires
                    start.nodes.len() >= 1,
            ;
        }
        let r = match self.mode {
            ExploreMode::Depth => {
                let r = self.explore_dfs();
                proof {
                    if r is Some {
                        let w = self@;
                        let m = w.current as int;
                        let p = w.nodes[m].parent->0 as int;
                        let k = choose|k: int|
                            start.first_new_neighbor(p, k) && r->0@ == (#[trigger] neighbor_list(start.board(p)))[k].1;
                        lemma_neighbor_shape(start.board(p));
                        assert(start.nodes_ok()) by {
                            reveal(StateSpaceView::inv);
                        }
                        assert(start.board(p).blocks.len() == start.block_count());
                    }
                }
                r
            },
            ExploreMode::Breadth => {
                let r = self.explore_bfs();
                proof {
                    if r is Some {
                        let w = self@;
                        lemma_bfs_step_count(start, w, w.current as int, r->0@);
                    }
                    if start.bfs_layered() && r is Some {
                        let w = self@;
                        let c = w.current as int;
                        lemma_bfs_head(start, c);
                        let k = choose|k: int|
                            {
                                &&& start.first_unexpanded_at(start.frontier, k)
                                &&& w.current == start.frontier[k]
                                &&& w.frontier == start.frontier.skip(k + 1) + Self::index_range(
                                    start.nodes.len() as int,
                                    w.nodes.len() as int,
                                )
                            };
                        assert(k == 0);
                        assert forall|i: int|
                            0 <= i < start.nodes.len() && (#[trigger] start.nodes[i]).bfs_expanded implies start.depth(i)
                            <= start.depth(c) by {
                            assert(start.depth(i) <= start.depth(start.frontier[0] as int));
                        }
                    }
                    if start.bfs_layered() && start.hashes_faithful() {
                        let w = self@;
                        if r is Some {
                            let c = w.current as int;
                            lemma_bfs_head(start, c);
                            let k = choose|k: int|
                                {
                                    &&& start.first_unexpanded_at(start.frontier, k)
                                    &&& w.current == start.frontier[k]
                                    &&& w.frontier == start.frontier.skip(k + 1) + Self::index_range(
                                        start.nodes.len() as int,
                                        w.nodes.len() as int,
                                    )
                                };
                            assert(k == 0);
                            lemma_bfs_step_layered(start, w, c);
                            assert(w.bfs_layered());
                        } else {
                            assert forall|i: int|
                                0 <= i < w.nodes.len() && !(#[trigger] w.nodes[i]).bfs_expanded implies exists|k: int|
                                0 <= k < w.frontier.len() && #[trigger] w.frontier[k] == i by {
                                assert(start.nodes[i].bfs_expanded);
                            }
                            assert(w.nodes == start.nodes && w.edges == start.edges);
                            assert forall|i: int| 0 < i < w.nodes.len() implies #[trigger] w.has_nearer_neighbor(i) by {
                                assert(start.has_nearer_neighbor(i));
                                let j = choose|j: int|
                                    0 <= j < start.nodes.len() && start.depth(j) + 1 == start.depth(i)
                                        && #[trigger] start.has_edge(j, i);
                                assert(w.has_edge(j, i));
                            }
                            assert forall|k: int| 0 <= k < w.edges.len() implies #[trigger] w.edge_spans_one_layer(k) by {
                                assert(start.edge_spans_one_layer(k));
                            }
                            assert forall|i: int| 0 < i < w.nodes.len() implies #[trigger] w.depth(i) > 0 by {
                                assert(start.depth(i) > 0);
                            }
                            assert(w.bfs_layered());
                        }
                    }
                }
                r
            },
        };
        proof {
            if start.depths_witnessed() {
                let w = self@;
                if r is None {
                    lemma_depths_kept(start, w, 0, 0);
                } else if start.mode == ExploreMode::Breadth {
                    let c = w.current as int;
                    lemma_depths_kept(start, w, c, w.depth(c) + 1);
                } else {
                    let m = w.current as int;
                    let p = w.nodes[m].parent->0 as int;
                    let k = choose|k: int|
                        start.first_new_neighbor(p, k) && r->0@ == (#[trigger] neighbor_list(start.board(p))[k]).1
                            && forall|j: int|
                            0 <= j <= k ==> w.reaches(p, #[trigger] neighbor_list(start.board(p))[j].1);
                    assert(w.reaches(p, w.board(m)));
                    lemma_depths_kept(start, w, p, w.depth(p) + 1);
                }
            }
            if start.boards_wf() {
                let w = self@;
                assert forall|i: int| 0 <= i < w.nodes.len() implies #[trigger] w.board(i).wf() by {
                    if i < start.nodes.len() {
                        assert(w.board(i) == start.board(i));
                    } else if start.mode == ExploreMode::Breadth {
                        let c = w.current as int;
                        let b = w.board(c);
                        let kq = choose|kq: int|
                            0 <= kq < neighbor_list(b).len() && w.nodes[i].node@ == (#[trigger] neighbor_list(b)[kq]).1;
                        assert(start.board(c).wf());
                        assert(w.board(c) == start.board(c));
                        lemma_neighbor_wf(b, kq);
                    } else {
                        let m = w.current as int;
                        let p = w.nodes[m].parent->0 as int;
                        let k = choose|k: int|
                            start.first_new_neighbor(p, k) && r->0@ == (#[trigger] neighbor_list(start.board(p))[k]).1
                                && forall|j: int|
                                0 <= j <= k ==> w.reaches(p, #[trigger] neighbor_list(start.board(p))[j].1);
                        assert(start.board(p).wf());
                        lemma_neighbor_wf(start.board(p), k);
                    }
                }
            }
            if start.edges_are_moves_from(0) {
                assert(start.graph_ok()) by {
                    reveal(StateSpaceView::inv);
                }
                lemma_moves_grow(start, self@, 0);
            }
        }
        r
    }

    /// The traversal that [`StateSpace::explore`] performs.
    pub fn mode(&self) -> (r: ExploreMode)
        ensures
            r == self@.mode,
    {
        self.mode
    }

    /// Sets the traversal that [`StateSpace::explore`] performs; nothing else
    /// changes.
    pub fn set_mode(&mut self, mode: ExploreMode)
        requires
            old(self).inv(),
        ensures
            final(self).inv(),
            final(self)@ == (StateSpaceView { mode, ..old(self)@ }),
    {
        let ghost start = self@;
        self.mode = mode;
        proof {
            lemma_inv_basics(start);
            lemma_inv_moved(start, self@);
        }
    }

    /// The index of the node the walk stands at.
    pub fn current(&self) -> (r: u32)
        ensures
            r == self@.current,
    {
        self.current
    }

    /// The board the walk stands at.
    pub fn board(&self) -> (r: &Board)
        requires
            self.inv(),
        ensures
            r@ == self@.board(self@.current as int),
    {
        proof {
            lemma_inv_basics(self@);
        }
        &self.node_at(self.current).node
    }

    /// The data of node `i`, if there is such a node.
    pub fn node(&self, i: u32) -> (r: Option<&NodeData<Board>>)
        requires
            self.inv(),
        ensures
            match r {
                Some(w) => i < self@.nodes.len() && *w == self@.nodes[i as int],
                None => i >= self@.nodes.len(),
            },
    {
        if (i as usize) < self.state_count() {
            Some(self.node_at(i))
        } else {
            None
        }
    }

    /// The underlying graph, for reading: its live node slots are the nodes
    /// and its live edge slots the edges.
    pub fn graph(&self) -> (r: &StableGraph<NodeData<Board>, EdgeData, Undirected, u32>)
        requires
            self.inv(),
        ensures
            graph_nodes(*r).len() == self@.nodes.len(),
            forall|i: int| 0 <= i < self@.nodes.len() ==> graph_nodes(*r)[i] == Some(#[trigger] self@.nodes[i]),
            graph_edges(*r).len() == self@.edges.len(),
            forall|k: int| 0 <= k < self@.edges.len() ==> graph_edges(*r)[k] == Some(#[trigger] self@.edges[k]),
    {
        proof {
            self.lemma_slots();
        }
        &self.states
    }

    /// A state space made of saved parts (see [`restored_view`]), or `None`
    /// when the parts do not satisfy the state space's invariant.
    #[verifier::spinoff_prover]
    #[verifier::rlimit(60)]
    pub fn restore(nodes: Vec<NodeData<Board>>, edges: Vec<(u32, u32, EdgeData)>, current: u32, mode: ExploreMode) -> (r: Option<StateSpace>)
        ensures
            r is Some <==> restored_view(nodes@, edges@, current, mode).inv(),
            r matches Some(s) ==> s.inv() && s@ == restored_view(nodes@, edges@, current, mode),
    {
        let ghost rv = restored_view(nodes@, edges@, current, mode);
        let n = nodes.len();
        if n == 0 || n >= 4294967295 || current as usize >= n || edges.len() >= 4294967295 {
            proof {
                assert(!rv.inv()) by {
                    reveal(StateSpaceView::inv);
                }
            }
            return None;
        }
        // Check each node, and index the hashes.
        let mut map: HashMap<u64, u32> = HashMap::new();
        let mut i: usize = 0;
        while i < n
            invariant
                n == nodes@.len(),
                1 <= n < u32::MAX,
                i <= n,
                rv == restored_view(nodes@, edges@, current, mode),
                forall|j: int| 0 <= j < i ==> {
                    &&& map@.contains_key((#[trigger] nodes@[j]).hash)
                    &&& map@[nodes@[j].hash] == j
                    &&& nodes@[j].hash == spec_board_hash(nodes@[j].node@)
                    &&& nodes@[j].depth <= j
                    &&& (nodes@[j].parent matches Some(p) ==> p < n && nodes@[p as int].depth < nodes@[j].depth)
                    &&& nodes@[j].node@.blocks.len() == nodes@[0].node@.blocks.len()
                },
                forall|h: u64| #[trigger] map@.contains_key(h) ==> map@[h] < i && nodes@[map@[h] as int].hash == h,
            decreases n - i,
        {
            let nd = &nodes[i];
            let h = nd.node.board_hash();
            let bad_parent = match nd.parent {
                Some(p) => p as usize >= n || nodes[p as usize].depth >= nd.depth,
                None => false,
            };
            if h != nd.hash || map.contains_key(&nd.hash) || nd.depth as usize > i || bad_parent
                || nd.node.blocks().len() != nodes[0].node.blocks().len() {
                proof {
                    assert(!rv.inv()) by {
                        reveal(StateSpaceView::inv);
                        if rv.inv() {
                            assert(rv.index_ok());
                            assert(rv.nodes_ok());
                            assert(rv.nodes[i as int] == nodes@[i as int]);
                            if map@.contains_key(nd.hash) {
                                let j = map@[nd.hash] as int;
                                assert(rv.index_of[nodes@[j].hash] == j);
                                assert(rv.index_of[nodes@[i as int].hash] == i);
                            }
                        }
                    }
                }
                return None;
            }
            map.insert(nd.hash, i as u32);
            i = i + 1;
        }
        proof {
            assert forall|h: u64| #[trigger] rv.index_of.contains_key(h) == map@.contains_key(h) by {
                if rv.index_of.contains_key(h) {
                    let j = choose|j: int| 0 <= j < nodes@.len() && (#[trigger] nodes@[j]).hash == h;
                    assert(map@.contains_key(nodes@[j].hash));
                }
                if map@.contains_key(h) {
                    let j = map@[h] as int;
                    assert(nodes@[j].hash == h);
                }
            }
            assert forall|h: u64| #[trigger] map@.contains_key(h) implies rv.index_of[h] == map@[h] by {
                let j = choose|j: int| 0 <= j < nodes@.len() && (#[trigger] nodes@[j]).hash == h;
                assert(map@[nodes@[j].hash] == j);
            }
            assert(rv.index_of =~= map@);
        }
        // Move the nodes into a graph, in order.
        let ghost saved = nodes@;
        let mut remaining = nodes;
        let mut reversed: Vec<NodeData<Board>> = Vec::new();
        proof {
            assert(remaining@ =~= saved.take(saved.len() as int));
            assert(reversed@ =~= saved.skip(saved.len() as int).reverse());
        }
        while remaining.len() > 0
            invariant
                saved.len() == n,
                remaining@.len() <= n,
                remaining@ == saved.take(remaining@.len() as int),
                reversed@ == saved.skip(remaining@.len() as int).reverse(),
            decreases remaining@.len(),
        {
            let ghost old_rem = remaining@;
            let ghost old_rev = reversed@;
            let ghost len = remaining@.len() as int;
            let nd = remaining.pop().unwrap();
            reversed.push(nd);
            proof {
                assert(nd == saved[len - 1]);
                assert(remaining@ =~= saved.take(len - 1));
                assert forall|q: int| 0 <= q < reversed@.len() implies reversed@[q] == saved.skip(len - 1).reverse()[q] by {
                    if q < old_rev.len() {
                        assert(old_rev[q] == saved.skip(len).reverse()[q]);
                    }
                }
                assert(reversed@ =~= saved.skip(len - 1).reverse());
            }
        }
        let mut states = graph_new();
        while reversed.len() > 0
            invariant
                saved == nodes@,
                saved.len() == n,
                n < u32::MAX,
                reversed@.len() <= n,
                reversed@ == saved.skip(n - reversed@.len()).reverse(),
                all_present(graph_nodes(states)),
                graph_nodes(states).len() == n - reversed@.len(),
                forall|j: int| 0 <= j < n - reversed@.len() ==> graph_nodes(states)[j] == Some(#[trigger] saved[j]),
                graph_edges(states).len() == 0,
            decreases reversed@.len(),
        {
            let ghost before = graph_nodes(states);
            let ghost old_rev = reversed@;
            let ghost len = reversed@.len() as int;
            let nd = reversed.pop().unwrap();
            proof {
                assert(nd == saved.skip(n - len).reverse()[len - 1]);
                assert(nd == saved[n - len]);
                assert forall|q: int| 0 <= q < reversed@.len() implies reversed@[q] == saved.skip(n - (len - 1)).reverse()[q] by {
                    assert(old_rev[q] == saved.skip(n - len).reverse()[q]);
                }
                assert(reversed@ =~= saved.skip(n - (len - 1)).reverse());
            }
            graph_add_node(&mut states, nd);
        }
        let mut s = StateSpace {
            current,
            map,
            states,
            mode,
            bfs_frontier: VecDeque::new(),
        };
        proof {
            s.lemma_slots();
            assert(s@.nodes =~= saved);
            assert(s@.edges =~= Seq::<(u32, u32, EdgeData)>::empty());
        }
        // Add the edges, each between two distinct nodes and none twice; note
        // which nodes are joined to an earlier node.
        let m = edges.len();
        let mut joined: Vec<bool> = Vec::new();
        let mut j: usize = 0;
        while j < n
            invariant
                joined@.len() == j,
                j <= n,
                forall|q: int| 0 <= q < j ==> !(#[trigger] joined@[q]),
            decreases n - j,
        {
            joined.push(false);
            j = j + 1;
        }
        let mut k: usize = 0;
        while k < m
            invariant
                m == edges@.len(),
                m < u32::MAX,
                k <= m,
                saved == nodes@,
                n == saved.len(),
                1 <= n < u32::MAX,
                rv == restored_view(saved, edges@, current, mode),
                s.slots_full(),
                s@.nodes == saved,
                s@.index_of == rv.index_of,
                s@.current == current,
                s@.mode == mode,
                s@.frontier == Seq::<u32>::empty(),
                s@.edges == edges@.take(k as int),
                joined@.len() == n,
                forall|e: int|
                    0 <= e < k ==> {
                        &&& (#[trigger] edges@[e]).0 < n
                        &&& edges@[e].1 < n
                        &&& edges@[e].0 != edges@[e].1
                    },
                forall|e: int, l: int| 0 <= e < l < k ==> !joins(#[trigger] edges@[e], (#[trigger] edges@[l]).0 as int, edges@[l].1 as int),
                forall|q: int| 0 <= q < n && #[trigger] joined@[q] ==> s@.joined_to_earlier(q),
                forall|e: int| 0 <= e < k ==> joined@[later_end(#[trigger] edges@[e])],
            decreases m - k,
        {
            let (a, b, w) = edges[k];
            if a as usize >= n || b as usize >= n || a == b {
                proof {
                    assert(!rv.inv()) by {
                        reveal(StateSpaceView::inv);
                        if rv.inv() {
                            assert(rv.graph_ok());
                            assert(rv.edges[k as int] == edges@[k as int]);
                        }
                    }
                }
                return None;
            }
            proof {
                s.lemma_slots();
            }
            let ghost before_slots = graph_edges(s.states);
            if graph_contains_edge(&s.states, a, b) {
                proof {
                    let e = choose|e: int|
                        0 <= e < graph_edges(s.states).len() && (#[trigger] graph_edges(s.states)[e]) is Some
                            && joins(graph_edges(s.states)[e].unwrap(), a as int, b as int);
                    assert(s@.edges[e] == edges@[e]);
                    assert(!rv.inv()) by {
                        reveal(StateSpaceView::inv);
                        if rv.inv() {
                            assert(rv.graph_ok());
                            assert(rv.edges[k as int] == edges@[k as int]);
                            assert(rv.edges[e] == edges@[e]);
                            assert(!joins(rv.edges[e], rv.edges[k as int].0 as int, rv.edges[k as int].1 as int));
                        }
                    }
                }
                return None;
            }
            let ghost before = s@;
            let ghost jbefore = joined@;
            graph_add_edge(&mut s.states, a, b, w);
            let hi = if a < b { b } else { a };
            joined.set(hi as usize, true);
            proof {
                let e = (a, b, w);
                assert(all_present(graph_edges(s.states)));
                s.lemma_slots();
                assert(s@.edges =~= before.edges.push(e));
                assert(s@.edges =~= edges@.take(k + 1));
                assert(s@.nodes =~= before.nodes);
                assert(s@.index_of == before.index_of);
                assert(s@.has_edge(a as int, b as int)) by {
                    assert(joins(s@.edges[k as int], a as int, b as int));
                }
                assert forall|e2: int, l: int| 0 <= e2 < l < k + 1 implies !joins(#[trigger] edges@[e2], (#[trigger] edges@[l]).0 as int, edges@[l].1 as int) by {
                    if l == k {
                        assert(!edge_slots_join(before_slots, a as int, b as int));
                        assert(before_slots[e2] == Some(before.edges[e2]));
                        assert(before.edges[e2] == edges@[e2]);
                        assert(edges@[l] == e);
                    }
                }
                assert forall|q: int| 0 <= q < n && #[trigger] joined@[q] implies s@.joined_to_earlier(q) by {
                    if q == hi {
                        let lo: int = if a < b { a as int } else { b as int };
                        assert(s@.has_edge(lo, q));
                    } else {
                        assert(jbefore[q]);
                        assert(before.joined_to_earlier(q));
                        let p = choose|p: int| 0 <= p < q && #[trigger] before.has_edge(p, q);
                        lemma_grows_same(before, before);
                        let ee = choose|ee: int| 0 <= ee < before.edges.len() && joins(#[trigger] before.edges[ee], p, q);
                        assert(joins(s@.edges[ee], p, q));
                        assert(s@.has_edge(p, q));
                    }
                }
            }
            k = k + 1;
        }
        proof {
            assert(edges@.take(m as int) =~= edges@);
            assert(s@.edges == edges@);
        }
        // Every node but the first must be joined to an earlier one.
        let mut q: usize = 1;
        while q < n
            invariant
                1 <= q <= n,
                n == saved.len(),
                joined@.len() == n,
                rv == restored_view(saved, edges@, current, mode),
                saved == nodes@,
                s@.nodes == saved,
                s@.edges == edges@,
                forall|e: int| 0 <= e < edges@.len() ==> joined@[later_end(#[trigger] edges@[e])],
                forall|e: int|
                    0 <= e < edges@.len() ==> {
                        &&& (#[trigger] edges@[e]).0 < n
                        &&& edges@[e].1 < n
                        &&& edges@[e].0 != edges@[e].1
                    },
                forall|i: int| 0 < i < q ==> #[trigger] joined@[i],
            decreases n - q,
        {
            if !joined[q] {
                proof {
                    assert(!rv.inv()) by {
                        reveal(StateSpaceView::inv);
                        if rv.inv() {
                            assert(rv.joined_to_earlier(q as int));
                            let p = choose|p: int| 0 <= p < q && #[trigger] rv.has_edge(p, q as int);
                            let e = choose|e: int| 0 <= e < rv.edges.len() && joins(#[trigger] rv.edges[e], p, q as int);
                            assert(later_end(edges@[e]) == q);
                        }
                    }
                }
                return None;
            }
            q = q + 1;
        }
        proof {
            assert(s@.connected()) by {
                assert forall|i: int| 0 < i < s@.nodes.len() implies #[trigger] s@.joined_to_earlier(i) by {
                    assert(joined@[i]);
                }
            }
        }
        // Every node marked expanded must be closed.
        let mut c: usize = 0;
        while c < n
            invariant
                c <= n,
                n == saved.len(),
                1 <= n < u32::MAX,
                rv == restored_view(saved, edges@, current, mode),
                saved == nodes@,
                s.slots_full(),
                s@.nodes == saved,
                s@.edges == edges@,
                s@.index_of == rv.index_of,
                s@.current == current,
                s@.mode == mode,
                s@.frontier == Seq::<u32>::empty(),
                forall|i: int| 0 <= i < c && (#[trigger] s@.nodes[i]).bfs_expanded ==> s@.closed_at(i),
            decreases n - c,
        {
            let nd = s.node_at(c as u32);
            if nd.bfs_expanded {
                let nbrs = nd.node.neighbors();
                let ghost nl = neighbor_list(nd.node@);
                let cnt = nbrs.len();
                let mut t: usize = 0;
                while t < cnt
                    invariant
                        t <= cnt,
                        cnt == nl.len(),
                        c < n,
                        n < u32::MAX,
                        rv == restored_view(saved, edges@, current, mode),
                        saved == nodes@,
                        s@.nodes == saved,
                        s@.edges == edges@,
                        s@.index_of == rv.index_of,
                        s@.nodes[c as int].bfs_expanded,
                        n == s@.nodes.len(),
                        s.slots_full(),
                        nl == neighbor_list(s@.board(c as int)),
                        nbrs@.len() == cnt,
                        forall|j: int| 0 <= j < cnt ==> (#[trigger] nbrs@[j]).1@ == nl[j].1,
                        forall|j: int| 0 <= j < t ==> s@.reaches(c as int, #[trigger] nl[j].1),
                        forall|h: u64| #[trigger] s@.index_of.contains_key(h) ==> s@.index_of[h] < n,
                    decreases cnt - t,
                {
                    let h = nbrs[t].1.board_hash();
                    let ok = match s.map.get(&h) {
                        Some(j) => {
                            let j = *j;
                            proof {
                                s.lemma_slots();
                            }
                            j == c as u32 || graph_contains_edge(&s.states, c as u32, j)
                        },
                        None => false,
                    };
                    proof {
                        s.lemma_slots();
                        if s@.index_of.contains_key(h) && s@.index_of[h] != c {
                            let j = s@.index_of[h];
                            if s@.has_edge(c as int, j as int) {
                                let e = choose|e: int| 0 <= e < s@.edges.len() && joins(#[trigger] s@.edges[e], c as int, j as int);
                                assert(graph_edges(s.states)[e] == Some(s@.edges[e]));
                            }
                            if edge_slots_join(graph_edges(s.states), c as int, j as int) {
                                let e = choose|e: int|
                                    0 <= e < graph_edges(s.states).len() && (#[trigger] graph_edges(s.states)[e]) is Some
                                        && joins(graph_edges(s.states)[e].unwrap(), c as int, j as int);
                                assert(joins(s@.edges[e], c as int, j as int));
                            }
                        }
                    }
                    if !ok {
                        proof {
                            assert(!s@.reaches(c as int, nl[t as int].1));
                            assert(!rv.inv()) by {
                                reveal(StateSpaceView::inv);
                                if rv.inv() {
                                    assert(rv.nodes[c as int].bfs_expanded);
                                    assert(rv.closed_at(c as int));
                                    assert(rv.board(c as int) == s@.board(c as int));
                                    assert(rv.reaches(c as int, nl[t as int].1));
                                }
                            }
                        }
                        return None;
                    }
                    t = t + 1;
                }
                proof {
                    assert forall|j: int| 0 <= j < neighbor_list(s@.board(c as int)).len() implies s@.reaches(
                        c as int,
                        #[trigger] neighbor_list(s@.board(c as int))[j].1,
                    ) by {
                        assert(s@.reaches(c as int, nl[j].1));
                    }
                }
            }
            c = c + 1;
        }
        proof {
            assert(s@ == rv);
            assert(rv.inv()) by {
                reveal(StateSpaceView::inv);
                assert(rv.expanded_closed());
            }
        }
        Some(s)
    }

    /// The number of board states found so far.
    pub fn state_count(&self) -> (r: usize)
        requires
            self.inv(),
        ensures
            r == self@.nodes.len(),
    {
        proof {
            lemma_present_count_full(graph_nodes(self.states));
        }
        graph_node_count(&self.states)
    }

    /// The number of distinct moves (edges between states) found so far.
    pub fn move_count(&self) -> (r: usize)
        requires
            self.inv(),
        ensures
            r == self@.edges.len(),
    {
        proof {
            lemma_present_count_full(graph_edges(self.states));
        }
        graph_edge_count(&self.states)
    }
}

} // verus!
