# State Space Adventure

A sliding-block (Klotski) puzzle explorer for Stardust XR. The client maps the
state space of a board one step per frame: every board reachable by moving a
block one cell becomes a node of a graph, every move an edge, and the graph is
laid out in 3D by a force-directed simulation.

## Layout

- `src/` is the verified library.
  - `board.rs`: blocks and boards, validation, moves, the list of boards one
    move away, and the board hash (blocks in canonical order, fed to std's
    `DefaultHasher`).
  - `graph.rs`: the `petgraph` stable graph that holds the states, with the
    trusted wrappers that specify the `petgraph` calls used.
  - `state_space.rs`: the explored state space, its invariant, breadth-first
    and depth-first exploring one step at a time, and the checked rebuilding
    of a saved space.
- `app/` is the client: window elements, the force-directed layout (floating
  point, with an octree for repulsion), RON loading and saving through serde.
- `tests/` exercises the library on concrete boards.

## What is proved

Among others: a move keeps a board valid and can be undone, and a block
sliding two cells must find the cell in between free; the move list holds
exactly the valid unit moves and is symmetric on valid boards; the board hash
ignores block order and color; every exploring step, in either mode and in
any mix of modes, keeps the state space's invariant (consistent hash index of
one entry per state, no duplicate or self edges, connected graph, expanded
nodes closed), every edge it adds stands for a move, and exploring returns
nothing only once every state is closed. A depth-first step steps out of the
first node on the parent chain from where the walk stands that has an
unknown move, resuming at the first unexpanded node when the chain runs out.
Every depth is the length of a path of moves from the root. Where the hash
tells the boards
involved apart, a closed space holds every board reachable from a board it
holds, and in a breadth-first exploration from a valid board each node's
depth is its distance from the root in the graph, nodes being expanded in
order of depth.
