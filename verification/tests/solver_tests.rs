use mazegenerator::a_star;
use mazegenerator::bfs::breadth_first_search;
use mazegenerator::dfs;
use mazegenerator::leftturn::left_first;
use mazegenerator::maze::{Maze, MazeError};
use mazegenerator::mazesolver::{solve_maze, Solver};
use mazegenerator::rng::RandomSource;

/// A straight corridor from (1, 1) to (7, 1): the unique path has
/// seven coordinates.
fn corridor() -> Maze {
    let mut maze = Maze::new(3, 9);
    maze.set_open(2, 1);
    maze.set_open(3, 1);
    maze.set_open(4, 1);
    maze.set_open(5, 1);
    maze.set_open(6, 1);
    maze.set_open(7, 1);
    maze
}

#[test]
fn test_bfs_on_corridor() {
    let maze = corridor();
    let path = breadth_first_search((1, 1), (7, 1), &maze).unwrap();
    assert_eq!(
        path,
        vec![(1, 1), (2, 1), (3, 1), (4, 1), (5, 1), (6, 1), (7, 1)]
    );
}

#[test]
fn test_solver_agreement_on_unique_path() {
    // With a unique path between the endpoints, all three solvers
    // return paths with the same endpoints and the same length.
    let maze = corridor();
    let p1 = breadth_first_search((1, 1), (7, 1), &maze).unwrap();
    let p2 = a_star::solve((1, 1), (7, 1), &maze).unwrap();
    let p3 = left_first((1, 1), (7, 1), &maze, 100).unwrap();
    assert_eq!(p1.first(), p2.first());
    assert_eq!(p1.last(), p2.last());
    assert_eq!(p1.first(), p3.first());
    assert_eq!(p1.last(), p3.last());
    assert_eq!(p1.len(), p2.len());
    assert_eq!(p1.len(), p3.len());
}

#[test]
fn test_wall_follower_walks_back_west() {
    let maze = corridor();
    let path = left_first((7, 1), (1, 1), &maze, 100).unwrap();
    assert_eq!(path.len(), 7);
    assert_eq!(path[0], (7, 1));
    assert_eq!(path[6], (1, 1));
}

#[test]
fn test_wall_follower_respects_step_bound() {
    let maze = corridor();
    let result = left_first((1, 1), (7, 1), &maze, 2);
    assert_eq!(result, Err(MazeError::UnboundedWalk));
}

#[test]
fn test_bfs_reports_no_path() {
    let mut maze = Maze::new(5, 5);
    maze.set_open(3, 3);
    let result = breadth_first_search((1, 1), (3, 3), &maze);
    assert!(result.is_none());
}

#[test]
fn test_astar_reports_no_path() {
    let mut maze = Maze::new(5, 5);
    maze.set_open(3, 3);
    let result = a_star::solve((1, 1), (3, 3), &maze);
    assert!(result.is_none());
}

#[test]
fn test_solve_maze_rejects_closed_endpoint() {
    let maze = corridor();
    let result = solve_maze(Solver::BFS, (1, 1), (8, 1), &maze, 100);
    assert_eq!(result, Err(MazeError::InvalidEndpoint));
}

#[test]
fn test_solve_maze_no_path_error() {
    let mut maze = Maze::new(5, 5);
    maze.set_open(3, 3);
    let result = solve_maze(Solver::BFS, (1, 1), (3, 3), &maze, 100);
    assert_eq!(result, Err(MazeError::NoPathFound));
}

#[test]
fn test_bfs_connects_every_cell_of_a_generated_maze() {
    let mut rng = RandomSource::Ambient;
    let maze = dfs::generate(15, 15, &mut rng);
    for y in 0..15u32 {
        for x in 0..15u32 {
            if x % 2 == 1 && y % 2 == 1 {
                let path = breadth_first_search((1, 1), (x, y), &maze)
                    .expect("a perfect maze connects all cells");
                assert_eq!(path[0], (1, 1));
                assert_eq!(*path.last().unwrap(), (x, y));
            }
        }
    }
}

#[test]
fn test_astar_connects_cells_of_a_generated_maze() {
    let mut rng = RandomSource::from_seed(11);
    let maze = dfs::generate(15, 23, &mut rng);
    let path = a_star::solve((1, 1), (21, 13), &maze).unwrap();
    assert_eq!(path[0], (1, 1));
    assert_eq!(*path.last().unwrap(), (21, 13));
    for pair in path.windows(2) {
        let dx = pair[0].0.abs_diff(pair[1].0);
        let dy = pair[0].1.abs_diff(pair[1].1);
        assert_eq!(dx + dy, 1);
    }
}

#[test]
fn test_wall_follower_solves_a_generated_maze() {
    let mut rng = RandomSource::from_seed(3);
    let maze = dfs::generate(15, 15, &mut rng);
    let path = left_first((1, 1), (13, 13), &maze, 100_000).unwrap();
    assert_eq!(path[0], (1, 1));
    assert_eq!(*path.last().unwrap(), (13, 13));
}

#[test]
fn test_solve_maze_dispatches_all_solvers() {
    let maze = corridor();
    for solver in [Solver::BFS, Solver::AStar, Solver::LeftTurn] {
        let path = solve_maze(solver, (1, 1), (7, 1), &maze, 1000).unwrap();
        assert_eq!(path[0], (1, 1));
        assert_eq!(*path.last().unwrap(), (7, 1));
    }
}

#[test]
fn test_heuristic_is_euclidean_floor() {
    assert_eq!(a_star::heuristic_cost((1, 1), (1, 1)), 0);
    assert_eq!(a_star::heuristic_cost((1, 1), (4, 5)), 5);
    assert_eq!(a_star::heuristic_cost((4, 5), (1, 1)), 5);
    assert_eq!(a_star::heuristic_cost((0, 0), (2, 2)), 2);
    assert_eq!(a_star::isqrt(8), 2);
    assert_eq!(a_star::isqrt(9), 3);
    assert_eq!(a_star::distance_between((1, 1), (2, 1)), 1);
}
