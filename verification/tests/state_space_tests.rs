use state_space_adventure::board::{Block, Board, Cell};
use state_space_adventure::graph::{EdgeData, NodeData};
use state_space_adventure::state_space::{ExploreMode, StateSpace};

fn block(x: usize, y: usize, width: usize, height: usize) -> Block {
    Block { color: [5, 6, 7, 8], top_left: Cell { x, y }, width, height }
}

fn lone_block(width: usize, height: usize) -> Board {
    Board::from_parts(width, height, false, vec![block(0, 0, 1, 1)]).unwrap()
}

fn run_to_end(space: &mut StateSpace) -> usize {
    let mut steps = 0;
    while space.explore().is_some() {
        steps += 1;
        assert!(steps < 10_000);
    }
    steps
}

fn all_hashes_distinct(space: &StateSpace) -> bool {
    let mut hashes: Vec<u64> = (0..space.state_count() as u32)
        .map(|i| space.node(i).unwrap().hash)
        .collect();
    hashes.sort();
    hashes.windows(2).all(|w| w[0] != w[1])
}

#[test]
fn new_space_holds_only_the_board() {
    let board = lone_block(2, 1);
    let space = StateSpace::new(board.clone());
    assert_eq!(space.state_count(), 1);
    assert_eq!(space.move_count(), 0);
    assert_eq!(space.current(), 0);
    assert!(space.mode() == ExploreMode::Breadth);
    assert!(*space.board() == board);
    let root = space.node(0).unwrap();
    assert_eq!(root.hash, board.board_hash());
    assert_eq!(root.depth, 0);
    assert!(root.parent.is_none());
    assert!(!root.bfs_expanded);
    assert!(space.node(1).is_none());
    assert_eq!(ExploreMode::default(), ExploreMode::Breadth);
}

#[test]
fn breadth_first_expands_then_reports_done() {
    let board = lone_block(2, 1);
    let mut space = StateSpace::new(board.clone());
    let first = space.explore().unwrap();
    assert!(first == board);
    assert_eq!(space.state_count(), 2);
    assert_eq!(space.move_count(), 1);
    assert!(space.node(0).unwrap().bfs_expanded);
    let second = space.explore().unwrap();
    assert_eq!(second.blocks()[0].top_left, Cell { x: 1, y: 0 });
    assert_eq!(space.current(), 1);
    assert_eq!(space.node(1).unwrap().depth, 1);
    assert!(space.explore().is_none());
    assert_eq!(space.state_count(), 2);
    assert_eq!(space.move_count(), 1);
}

#[test]
fn breadth_first_first_step_adds_every_neighbor() {
    let board = Board::from_parts(3, 3, false, vec![block(0, 0, 1, 1), block(1, 1, 2, 1)]).unwrap();
    let mut space = StateSpace::new(board.clone());
    let reached = space.explore().unwrap();
    assert!(reached == board);
    assert_eq!(space.state_count(), 1 + board.neighbors().len());
    assert_eq!(space.move_count(), board.neighbors().len());
    for i in 1..space.state_count() as u32 {
        let n = space.node(i).unwrap();
        assert_eq!(n.depth, 1);
        assert!(n.parent.is_none());
        assert!(!n.bfs_expanded);
    }
}

#[test]
fn breadth_first_maps_the_whole_grid() {
    let mut space = StateSpace::new(lone_block(3, 3));
    let steps = run_to_end(&mut space);
    assert_eq!(steps, 9);
    assert_eq!(space.state_count(), 9);
    // Unit moves on a 3x3 grid: 6 horizontal and 6 vertical adjacencies.
    assert_eq!(space.move_count(), 12);
    assert!(all_hashes_distinct(&space));
    for i in 0..9 {
        assert!(space.node(i).unwrap().bfs_expanded);
    }
    // Once done it stays done.
    assert!(space.explore().is_none());
    assert_eq!(space.state_count(), 9);
}

#[test]
fn breadth_first_depths_are_move_distances() {
    let mut space = StateSpace::new(lone_block(3, 1));
    run_to_end(&mut space);
    let mut depths: Vec<(usize, u32)> = (0..3u32)
        .map(|i| {
            let n = space.node(i).unwrap();
            (n.node.blocks()[0].top_left.x, n.depth)
        })
        .collect();
    depths.sort();
    assert_eq!(depths, vec![(0, 0), (1, 1), (2, 2)]);
}

#[test]
fn depth_first_steps_into_new_states_and_backs_out() {
    let board = lone_block(2, 1);
    let mut space = StateSpace::new(board.clone());
    space.set_mode(ExploreMode::Depth);
    let stepped = space.explore().unwrap();
    assert_eq!(stepped.blocks()[0].top_left, Cell { x: 1, y: 0 });
    assert_eq!(space.current(), 1);
    assert_eq!(space.node(1).unwrap().parent, Some(0));
    assert_eq!(space.state_count(), 2);
    assert_eq!(space.move_count(), 1);
    assert!(space.explore().is_none());
    assert_eq!(space.current(), 0);
    assert_eq!(space.state_count(), 2);
}

#[test]
fn depth_first_maps_the_whole_grid() {
    let mut space = StateSpace::new(lone_block(3, 3));
    space.set_mode(ExploreMode::Depth);
    let steps = run_to_end(&mut space);
    // Each step discovers exactly one state.
    assert_eq!(steps, 8);
    assert_eq!(space.state_count(), 9);
    assert_eq!(space.move_count(), 12);
    assert!(all_hashes_distinct(&space));
    assert_eq!(space.current(), 0);
}

#[test]
fn depth_first_parents_are_shallower() {
    let mut space = StateSpace::new(lone_block(3, 2));
    space.set_mode(ExploreMode::Depth);
    run_to_end(&mut space);
    for i in 1..space.state_count() as u32 {
        let n = space.node(i).unwrap();
        let p = n.parent.unwrap();
        assert!(p < i);
        assert_eq!(space.node(p).unwrap().depth + 1, n.depth);
    }
}

#[test]
fn graph_reflects_the_space() {
    let mut space = StateSpace::new(lone_block(2, 2));
    run_to_end(&mut space);
    let g = space.graph();
    assert_eq!(g.node_count(), space.state_count());
    assert_eq!(g.edge_count(), space.move_count());
    assert_eq!(space.state_count(), 4);
    assert_eq!(space.move_count(), 4);
}

#[test]
fn a_pinned_bar_only_slides_along_its_length() {
    let board = Board::from_parts(3, 2, true, vec![block(0, 0, 2, 1)]).unwrap();
    let mut space = StateSpace::new(board);
    run_to_end(&mut space);
    assert_eq!(space.state_count(), 2);
    assert_eq!(space.move_count(), 1);
}

fn parts(space: &StateSpace) -> (Vec<NodeData<Board>>, Vec<(u32, u32, EdgeData)>) {
    let nodes = (0..space.state_count() as u32)
        .map(|i| {
            let n = space.node(i).unwrap();
            NodeData {
                hash: n.hash,
                node: n.node.clone(),
                parent: n.parent,
                depth: n.depth,
                bfs_expanded: n.bfs_expanded,
            }
        })
        .collect();
    let g = space.graph();
    let edges = g
        .edge_indices()
        .map(|e| {
            let (a, b) = g.edge_endpoints(e).unwrap();
            (a.index() as u32, b.index() as u32, *g.edge_weight(e).unwrap())
        })
        .collect();
    (nodes, edges)
}

#[test]
fn restore_round_trips_a_space() {
    let mut space = StateSpace::new(lone_block(3, 2));
    space.explore();
    space.explore();
    let (nodes, edges) = parts(&space);
    let mut restored =
        StateSpace::restore(nodes, edges, space.current(), ExploreMode::Breadth).unwrap();
    assert_eq!(restored.state_count(), space.state_count());
    assert_eq!(restored.move_count(), space.move_count());
    assert_eq!(restored.current(), space.current());
    // Exploring the restored space rebuilds its queue and finishes the job.
    run_to_end(&mut restored);
    assert_eq!(restored.state_count(), 6);
    assert_eq!(restored.move_count(), 7);
}

#[test]
fn restore_refuses_inconsistent_parts() {
    let mut space = StateSpace::new(lone_block(2, 2));
    run_to_end(&mut space);
    let (nodes, edges) = parts(&space);
    let current = space.current();

    // No nodes at all.
    assert!(StateSpace::restore(vec![], vec![], 0, ExploreMode::Breadth).is_none());

    // Current node out of range.
    let (n2, e2) = parts(&space);
    assert!(StateSpace::restore(n2, e2, 4, ExploreMode::Breadth).is_none());

    // A wrong hash.
    let (mut n2, e2) = parts(&space);
    n2[1].hash ^= 1;
    assert!(StateSpace::restore(n2, e2, current, ExploreMode::Breadth).is_none());

    // The same board twice.
    let (mut n2, e2) = parts(&space);
    n2[1] = NodeData {
        hash: n2[0].hash,
        node: n2[0].node.clone(),
        parent: None,
        depth: 1,
        bfs_expanded: false,
    };
    assert!(StateSpace::restore(n2, e2, current, ExploreMode::Breadth).is_none());

    // A self loop, and an edge given twice.
    let (n2, mut e2) = parts(&space);
    e2.push((1, 1, EdgeData([0; 4])));
    assert!(StateSpace::restore(n2, e2, current, ExploreMode::Breadth).is_none());
    let (n2, mut e2) = parts(&space);
    let first = e2[0];
    e2.push((first.1, first.0, first.2));
    assert!(StateSpace::restore(n2, e2, current, ExploreMode::Breadth).is_none());

    // A node joined to no earlier node.
    let (n2, _) = parts(&space);
    assert!(StateSpace::restore(n2, vec![], current, ExploreMode::Breadth).is_none());

    // A node marked expanded whose moves are missing.
    let (mut n2, mut e2) = parts(&space);
    n2[0].bfs_expanded = true;
    e2.clear();
    e2.push((0, 1, EdgeData([0; 4])));
    e2.push((1, 2, EdgeData([0; 4])));
    e2.push((2, 3, EdgeData([0; 4])));
    let _ = nodes;
    let _ = edges;
    let r = StateSpace::restore(n2, e2, current, ExploreMode::Breadth);
    // Node 0 is one move from two of the others but joined to only one.
    assert!(r.is_none());
}

fn every_edge_is_a_move(space: &StateSpace) -> bool {
    let (nodes, edges) = parts(space);
    edges.iter().all(|&(a, b, EdgeData(color))| {
        nodes[a as usize]
            .node
            .neighbors()
            .iter()
            .any(|(moved, next)| next.board_hash() == nodes[b as usize].hash && moved.color == color)
    })
}

#[test]
fn every_edge_stands_for_a_move() {
    let red = Block { color: [1, 0, 0, 1], top_left: Cell { x: 0, y: 0 }, width: 1, height: 1 };
    let blue = Block { color: [0, 0, 1, 1], top_left: Cell { x: 1, y: 1 }, width: 2, height: 1 };
    let board = Board::from_parts(3, 3, false, vec![red, blue]).unwrap();
    for mode in [ExploreMode::Breadth, ExploreMode::Depth] {
        let mut space = StateSpace::new(board.clone());
        space.set_mode(mode);
        let mut steps = 0;
        loop {
            let before = space.move_count();
            let mut chain = vec![space.current()];
            while let Some(p) = space.node(*chain.last().unwrap()).unwrap().parent {
                chain.push(p);
            }
            let reached = space.explore();
            assert!(every_edge_is_a_move(&space));
            if mode == ExploreMode::Breadth && reached.is_some() {
                // The edges of a breadth-first step all leave the node it expanded.
                let (_, edges) = parts(&space);
                let c = space.current();
                assert!(edges[before..].iter().all(|e| e.0 == c));
            }
            if mode == ExploreMode::Depth {
                // The edges of a depth-first step all leave nodes on the chain
                // of parent links from where the walk stood.
                let (_, edges) = parts(&space);
                assert!(edges[before..].iter().all(|e| chain.contains(&e.0)));
            }
            if reached.is_none() {
                break;
            }
            steps += 1;
            assert!(steps < 10_000);
        }
        assert!(space.move_count() > 0);
    }
}

fn distances_from_root(count: usize, edges: &[(u32, u32, EdgeData)]) -> Vec<Option<u32>> {
    let mut dist = vec![None; count];
    dist[0] = Some(0);
    let mut queue = std::collections::VecDeque::from([0usize]);
    while let Some(a) = queue.pop_front() {
        for &(x, y, _) in edges {
            let (x, y) = (x as usize, y as usize);
            let other = if x == a {
                y
            } else if y == a {
                x
            } else {
                continue;
            };
            if dist[other].is_none() {
                dist[other] = Some(dist[a].unwrap() + 1);
                queue.push_back(other);
            }
        }
    }
    dist
}

#[test]
fn breadth_first_depth_is_distance_from_the_root() {
    let board = Board::from_parts(
        3,
        3,
        false,
        vec![block(0, 0, 1, 1), block(1, 1, 2, 1), block(0, 2, 1, 1)],
    )
    .unwrap();
    let mut space = StateSpace::new(board);
    loop {
        let done = space.explore().is_none();
        let (nodes, edges) = parts(&space);
        let dist = distances_from_root(nodes.len(), &edges);
        for (i, n) in nodes.iter().enumerate() {
            assert_eq!(dist[i], Some(n.depth), "node {i}");
        }
        if done {
            break;
        }
    }
    assert!(space.state_count() > 10);
}

#[test]
fn depth_first_after_breadth_first_maps_the_rest() {
    let board = lone_block(3, 1);
    let mut space = StateSpace::new(board.clone());
    assert!(space.explore().unwrap() == board);
    assert_eq!(space.state_count(), 2);
    space.set_mode(ExploreMode::Depth);
    assert_eq!(space.mode(), ExploreMode::Depth);
    let next = space.explore().unwrap();
    assert_eq!(next.blocks()[0].top_left, Cell { x: 2, y: 0 });
    let mut calls = 1;
    while space.explore().is_some() {
        calls += 1;
        assert!(calls < 100);
    }
    assert_eq!(space.state_count(), 3);
    assert_eq!(space.move_count(), 2);
    for i in 0..3 {
        assert!(space.node(i).unwrap().bfs_expanded);
    }
    assert!(space.explore().is_none());
    assert_eq!(space.state_count(), 3);
}

#[test]
fn depth_first_depth_is_the_length_of_the_walk() {
    let mut space = StateSpace::new(lone_block(2, 2));
    space.set_mode(ExploreMode::Depth);
    let first = space.explore().unwrap();
    let second = space.explore().unwrap();
    let third = space.explore().unwrap();
    assert_eq!(first.blocks()[0].top_left, Cell { x: 0, y: 1 });
    assert_eq!(second.blocks()[0].top_left, Cell { x: 1, y: 1 });
    assert_eq!(third.blocks()[0].top_left, Cell { x: 1, y: 0 });
    assert_eq!(space.node(3).unwrap().depth, 3);
    assert_eq!(space.node(3).unwrap().parent, Some(2));
    assert!(space.explore().is_none());
    assert_eq!(space.state_count(), 4);
    assert_eq!(space.move_count(), 4);
}

#[test]
fn breadth_first_adds_new_states_in_move_order() {
    let board = Board::from_parts(3, 3, false, vec![block(0, 0, 1, 1), block(1, 1, 2, 1)]).unwrap();
    let mut space = StateSpace::new(board.clone());
    space.explore().unwrap();
    let moves = board.neighbors();
    assert_eq!(space.state_count(), 1 + moves.len());
    for (k, (_, next)) in moves.iter().enumerate() {
        assert!(space.node(k as u32 + 1).unwrap().node == *next);
    }
}

#[test]
fn breadth_first_returns_boards_in_order_of_depth() {
    let board = Board::from_parts(
        3,
        3,
        false,
        vec![block(0, 0, 1, 1), block(1, 1, 2, 1), block(0, 2, 1, 1)],
    )
    .unwrap();
    let mut space = StateSpace::new(board);
    let mut last = 0;
    while space.explore().is_some() {
        let d = space.node(space.current()).unwrap().depth;
        assert!(d >= last);
        last = d;
    }
    assert!(last >= 2);
}

fn reachable_boards(start: &Board) -> Vec<Board> {
    let mut seen = vec![start.clone()];
    let mut k = 0;
    while k < seen.len() {
        let here = seen[k].clone();
        for (_, next) in here.neighbors() {
            if !seen.iter().any(|b| *b == next) {
                seen.push(next);
            }
        }
        k += 1;
    }
    seen
}

#[test]
fn a_finished_space_is_the_reachable_set_with_every_move() {
    // Blocks of different shapes, so that no two reachable boards share a hash.
    let board = Board::from_parts(3, 3, false, vec![block(0, 0, 1, 1), block(1, 1, 2, 1)]).unwrap();
    let reachable = reachable_boards(&board);
    for mode in [ExploreMode::Breadth, ExploreMode::Depth] {
        let mut space = StateSpace::new(board.clone());
        space.set_mode(mode);
        let somes = run_to_end(&mut space);
        assert_eq!(space.state_count(), reachable.len());
        match mode {
            ExploreMode::Breadth => assert_eq!(somes, reachable.len()),
            ExploreMode::Depth => assert_eq!(somes, reachable.len() - 1),
        }
        let (nodes, edges) = parts(&space);
        for b in &reachable {
            assert!(nodes.iter().any(|n| n.node == *b));
        }
        let mut pairs = 0;
        for a in 0..nodes.len() {
            for b in 0..nodes.len() {
                let one_move = nodes[a].node.neighbors().iter().any(|(_, x)| *x == nodes[b].node);
                let joined = edges
                    .iter()
                    .any(|e| (e.0 as usize, e.1 as usize) == (a, b) || (e.0 as usize, e.1 as usize) == (b, a));
                assert_eq!(joined, a != b && one_move);
                if a < b && one_move {
                    pairs += 1;
                }
            }
        }
        assert_eq!(space.move_count(), pairs);
        assert!(space.explore().is_none());
        assert_eq!(space.state_count(), reachable.len());
    }
}

/// The boards a depth-first walk from `start` steps into, in order: step into
/// the first unknown board one move away, and back out to the parent when
/// there is none.
fn depth_first_order(start: &Board) -> Vec<Board> {
    let mut known = vec![start.board_hash()];
    let mut chain = vec![start.clone()];
    let mut order = Vec::new();
    while let Some(top) = chain.last().cloned() {
        match top.neighbors().into_iter().map(|(_, b)| b).find(|b| !known.contains(&b.board_hash())) {
            Some(next) => {
                known.push(next.board_hash());
                order.push(next.clone());
                chain.push(next);
            }
            None => {
                chain.pop();
            }
        }
    }
    order
}

#[test]
fn depth_first_steps_out_of_the_walk_and_its_parents() {
    let boards = [
        lone_block(3, 3),
        Board::from_parts(3, 3, false, vec![block(0, 0, 1, 1), block(1, 1, 2, 1)]).unwrap(),
    ];
    for board in boards {
        let expected = depth_first_order(&board);
        let mut space = StateSpace::new(board.clone());
        space.set_mode(ExploreMode::Depth);
        let mut got = Vec::new();
        while let Some(b) = space.explore() {
            let c = space.current();
            let n = space.node(c).unwrap();
            assert_eq!(space.node(n.parent.unwrap()).unwrap().depth + 1, n.depth);
            got.push(b);
            assert!(got.len() <= expected.len());
        }
        assert_eq!(got.len(), expected.len());
        for (a, b) in got.iter().zip(expected.iter()) {
            assert!(a == b);
        }
    }
}
