//! The solver entry point: checks the endpoints and dispatches to the
//! chosen search.

use vstd::prelude::*;
use crate::maze::{Direction, Maze, MazeError};
use crate::paths::{connected, is_open_path};

verus! {

/// The choice of path search.
pub enum Solver {
    BFS,
    LeftTurn,
    AStar,
}

/// Solves the maze from `start` to `end` with the chosen search.
/// Fails fast with `InvalidEndpoint` exactly when an endpoint is not
/// an open coordinate.  The exhaustive searches return `NoPathFound`
/// exactly when the endpoints are not connected, and their result is
/// a shortest walk by edge count; the wall follower
/// returns `UnboundedWalk` when its walk does not reach the end
/// within `max_steps` steps.
pub fn solve_maze(
    solver: Solver,
    start: (u32, u32),
    end: (u32, u32),
    maze: &Maze,
    max_steps: u32,
) -> (r: Result<Vec<(u32, u32)>, MazeError>)
    requires
        maze.wf(),
    ensures
        match r {
            Ok(p) => {
                &&& maze.is_open(start.0 as int, start.1 as int)
                &&& maze.is_open(end.0 as int, end.1 as int)
                &&& is_open_path(*maze, p@)
                &&& p@.first() == start
                &&& p@.last() == end
                &&& (solver is BFS || solver is AStar) ==> forall|q: Seq<(u32, u32)>|
                    is_open_path(*maze, q) && q.first() == start && q.last() == end ==> p@.len()
                        <= q.len()
            },
            Err(e) => {
                &&& (e == MazeError::InvalidEndpoint <==> (!maze.is_open(
                    start.0 as int,
                    start.1 as int,
                ) || !maze.is_open(end.0 as int, end.1 as int)))
                &&& (e == MazeError::NoPathFound ==> !connected(*maze, start, end) && (
                solver is BFS || solver is AStar))
                &&& (e == MazeError::UnboundedWalk ==> solver is LeftTurn
                    && crate::leftturn::spec_walk(
                    *maze,
                    start,
                    Direction::South,
                    end,
                    max_steps as nat,
                ) is None)
                &&& e != MazeError::InvalidDimension
            },
        },
{
    if !maze.is_open_at(start.0, start.1) || !maze.is_open_at(end.0, end.1) {
        return Err(MazeError::InvalidEndpoint);
    }
    match solver {
        Solver::BFS => {
            match crate::bfs::breadth_first_search(start, end, maze) {
                Some(p) => Ok(p),
                None => Err(MazeError::NoPathFound),
            }
        },
        Solver::AStar => {
            match crate::a_star::solve(start, end, maze) {
                Some(p) => Ok(p),
                None => Err(MazeError::NoPathFound),
            }
        },
        Solver::LeftTurn => {
            match crate::leftturn::left_first(start, end, maze, max_steps) {
                Ok(p) => Ok(p),
                Err(_) => Err(MazeError::UnboundedWalk),
            }
        },
    }
}

} // verus!
