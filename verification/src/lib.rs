//! Procedural maze generation and solving over a rectangular grid.
//!
//! A maze is the set of open coordinates of an odd-sized grid: cells at
//! odd (x, y) positions, and the wall slots between two cells that a
//! generator has opened.  Two carving algorithms (randomized depth-first
//! backtracking and randomized Kruskal spanning-tree construction) produce
//! perfect mazes; a post-processor can add loops; three solvers (breadth
//! first search, A*, and a wall-following agent) find paths.

pub mod a_star;
pub mod bfs;
pub mod dfs;
pub mod imperfect;
pub mod kruskal;
pub mod leftturn;
pub mod maze;
pub mod mazebuilder;
pub mod mazesolver;
pub mod paths;
pub mod rng;

use vstd::prelude::*;

verus! {

/// The number of cell coordinates of a normalized grid: odd x below
/// `width` times odd y below `height`.
pub open spec fn cell_count(height: u32, width: u32) -> int {
    ((width - 1) / 2) * ((height - 1) / 2)
}

/// In a maze whose open coordinates are all reachable from the start
/// cell — which both generators guarantee — every pair of open
/// coordinates is joined by a walk.  Together with the solver
/// contracts, a breadth-first or A* search over such a maze never
/// reports that no path was found.
pub proof fn lemma_open_cells_connected(m: maze::Maze, a: (u32, u32), b: (u32, u32))
    requires
        m.wf(),
        dfs::rooted(m),
        m.is_open(a.0 as int, a.1 as int),
        m.is_open(b.0 as int, b.1 as int),
    ensures
        paths::connected(m, a, b),
{
    assert(paths::connected(m, (1u32, 1u32), a));
    assert(paths::connected(m, (1u32, 1u32), b));
    paths::lemma_connected_sym(m, (1u32, 1u32), a);
    paths::lemma_connected_trans(m, a, (1u32, 1u32), b);
}

/// For one and the same requested dimensions, the depth-first and the
/// Kruskal generator produce mazes with the same number of open
/// coordinates: both satisfy the spanning-tree size bound of
/// [`mazebuilder::perfect_maze_of`].
pub proof fn lemma_generator_equivalence(
    m1: maze::Maze,
    m2: maze::Maze,
    height: u32,
    width: u32,
)
    requires
        mazebuilder::perfect_maze_of(m1, height, width),
        mazebuilder::perfect_maze_of(m2, height, width),
    ensures
        m1.open_count_spec() == m2.open_count_spec(),
{
}

/// Two walks between the same endpoints that each undercut every
/// walk between those endpoints have the same length: the
/// breadth-first and A* solvers, whose contracts promise exactly
/// that, agree on the length of the path they return.
pub proof fn lemma_shortest_agreement(
    m: maze::Maze,
    start: (u32, u32),
    end: (u32, u32),
    p1: Seq<(u32, u32)>,
    p2: Seq<(u32, u32)>,
)
    requires
        paths::is_open_path(m, p1),
        p1.first() == start,
        p1.last() == end,
        paths::is_open_path(m, p2),
        p2.first() == start,
        p2.last() == end,
        forall|q: Seq<(u32, u32)>|
            paths::is_open_path(m, q) && q.first() == start && q.last() == end ==> p1.len()
                <= q.len(),
        forall|q: Seq<(u32, u32)>|
            paths::is_open_path(m, q) && q.first() == start && q.last() == end ==> p2.len()
                <= q.len(),
    ensures
        p1.len() == p2.len(),
{
    assert(p1.len() <= p2.len());
    assert(p2.len() <= p1.len());
}

/// Two successful solver runs between the same endpoints return
/// walks that begin and end at those same coordinates, whichever
/// algorithms produced them.
pub proof fn lemma_solver_agreement_endpoints(
    m: maze::Maze,
    start: (u32, u32),
    end: (u32, u32),
    p1: Seq<(u32, u32)>,
    p2: Seq<(u32, u32)>,
)
    requires
        paths::is_open_path(m, p1),
        p1.first() == start,
        p1.last() == end,
        paths::is_open_path(m, p2),
        p2.first() == start,
        p2.last() == end,
    ensures
        p1.first() == p2.first(),
        p1.last() == p2.last(),
{
}

} // verus!
