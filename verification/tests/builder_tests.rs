use mazegenerator::dfs;
use mazegenerator::maze::Node;
use mazegenerator::imperfect;
use mazegenerator::kruskal;
use mazegenerator::maze::{Direction, Maze, MazeError};
use mazegenerator::mazebuilder::{generate_maze, Generator};
use mazegenerator::rng::RandomSource;

#[test]
fn test_create_maze() {
    let maze = Maze::new(21, 21);
    assert_eq!(maze.coord_count(), 441);
}

#[test]
fn test_get_next_position() {
    let maze = Maze::new(21, 21);
    let mut rng = RandomSource::Ambient;
    let position = (1, 1);
    let test = dfs::get_next_position(&maze, position, &mut rng)
        .expect("Failed to unwrap get next position result!");
    assert_eq!(check_positions(test), true);
}

fn check_positions(test: (u32, u32)) -> bool {
    match test {
        (3, 1) => true,
        (1, 3) => true,
        _ => false,
    }
}

#[test]
fn test_move_to_position() {
    let mut maze = Maze::new(21, 21);
    let point = (1, 1);
    let position = (3, 1);

    let new_point = dfs::move_to_position(&mut maze, point, position);

    assert_eq!(new_point, position);
    assert_eq!(maze.is_open_at(3, 1), true);
    assert_eq!(maze.is_open_at(2, 1), true);
}

#[test]
fn test_find_wall_position() {
    let point = (1, 1);
    let position = (3, 1);

    let wall_pos = dfs::find_wall_position(point, position);

    assert_eq!(wall_pos.0, 2);
    assert_eq!(wall_pos.1, 1);
}

#[test]
fn test_random_position() {
    let cell_a = (20u32, 20u32);
    let cell_b = (20u32, 20u32);
    let cell_c = (20u32, 20u32);

    let list = vec![cell_a, cell_b, cell_c];

    let mut rng = RandomSource::Ambient;
    let _test = list[rng.pick(list.len())];
}

#[test]
fn test_get_direction() {
    let position = (1, 1);
    let north_test = dfs::get_direction(Direction::North, position);
    let east_test = dfs::get_direction(Direction::East, position);
    let south_test = dfs::get_direction(Direction::South, position);
    let west_test = dfs::get_direction(Direction::West, position);

    assert_eq!(north_test, None);
    assert_eq!(east_test.unwrap(), (3, 1));
    assert_eq!(south_test.unwrap(), (1, 3));
    assert_eq!(west_test, None);
}

#[test]
fn test_convert_nodes() {
    let maze = Maze::new(21, 21);
    let test = dfs::convert_nodes_to_visited(&maze);

    assert_eq!(test.len(), 1);
}

#[test]
fn test_generate_maze_selector() {
    let dfs_test = Generator::DFS {
        height: 10,
        width: 10,
    };
    let kruskal_test = Generator::Kruskal {
        height: 10,
        width: 10,
    };

    let mut rng = RandomSource::Ambient;
    let result1 = generate_maze(dfs_test, false, &mut rng).unwrap();
    let result2 = generate_maze(kruskal_test, false, &mut rng).unwrap();

    assert_eq!(result1.open_count(), result2.open_count());
}

#[test]
fn test_dfs_10_10() {
    let mut rng = RandomSource::Ambient;
    let test1 = dfs::generate(10, 10, &mut rng);
    assert_eq!(test1.open_count(), 49);
}

#[test]
fn test_dfs_15_23() {
    let mut rng = RandomSource::Ambient;
    let test2 = dfs::generate(15, 23, &mut rng);
    assert_eq!(test2.open_count(), 153);
}

#[test]
fn test_dfs_100_100() {
    let mut rng = RandomSource::Ambient;
    let test3 = dfs::generate(100, 100, &mut rng);
    assert_eq!(test3.open_count(), 4999);
}

#[test]
fn test_kruskal_10_10() {
    let mut rng = RandomSource::Ambient;
    let test1 = kruskal::kruskal(10, 10, &mut rng);
    assert_eq!(test1.open_count(), 49);
}

#[test]
fn test_kruskal_15_23() {
    let mut rng = RandomSource::Ambient;
    let test2 = kruskal::kruskal(15, 23, &mut rng);
    assert_eq!(test2.open_count(), 153);
}

#[test]
fn test_kruskal_100_100() {
    let mut rng = RandomSource::Ambient;
    let test3 = kruskal::kruskal(100, 100, &mut rng);
    assert_eq!(test3.open_count(), 4999);
}

#[test]
fn test_seeded_generation_is_reproducible() {
    let mut rng1 = RandomSource::from_seed(7);
    let mut rng2 = RandomSource::from_seed(7);
    let m1 = dfs::generate(15, 15, &mut rng1);
    let m2 = dfs::generate(15, 15, &mut rng2);
    assert_eq!(
        dfs::convert_nodes_to_visited(&m1),
        dfs::convert_nodes_to_visited(&m2)
    );
}

#[test]
fn test_normalization_coerces_even_dimensions() {
    let maze = Maze::new(10, 10);
    assert_eq!(maze.height(), 11);
    assert_eq!(maze.width(), 11);
    assert_eq!(maze.coord_count(), 121);
}

#[test]
fn test_generate_maze_rejects_small_dimensions() {
    let mut rng = RandomSource::Ambient;
    let result = generate_maze(
        Generator::DFS {
            height: 1,
            width: 5,
        },
        false,
        &mut rng,
    );
    assert!(matches!(result, Err(MazeError::InvalidDimension)));
}

#[test]
fn test_imperfect_adds_at_most_one_in_twenty() {
    let mut rng = RandomSource::from_seed(99);
    let maze = dfs::generate(100, 100, &mut rng);
    assert_eq!(maze.open_count(), 4999);

    let mut deadends: usize = 0;
    for y in 0..101u32 {
        for x in 0..101u32 {
            if x % 2 == 1 && y % 2 == 1 && maze.is_open_at(x, y)
                && imperfect::is_cell_deadend((x, y), &maze)
            {
                deadends += 1;
            }
        }
    }

    let looped = imperfect::generate(maze, &mut rng);
    let grown = looped.open_count() - 4999;
    assert!(grown <= (deadends + 19) / 20);
    assert!(looped.open_count() >= 4999);
}

#[test]
fn test_imperfect_on_corridor_keeps_it_unchanged() {
    // A single corridor has two dead ends but no second neighbour to
    // loop to, so the post-processor leaves it as it is.
    let mut maze = Maze::new(3, 9);
    maze.set_open(3, 1);
    maze.set_open(5, 1);
    maze.set_open(7, 1);
    maze.set_open(2, 1);
    maze.set_open(4, 1);
    maze.set_open(6, 1);
    assert_eq!(maze.open_count(), 7);

    let mut rng = RandomSource::from_seed(5);
    let looped = imperfect::generate(maze, &mut rng);
    assert_eq!(looped.open_count(), 7);
}

#[test]
fn test_is_cell_deadend() {
    let mut maze = Maze::new(3, 5);
    maze.set_open(2, 1);
    maze.set_open(3, 1);
    assert!(imperfect::is_cell_deadend((1, 1), &maze));
    assert!(imperfect::is_cell_deadend((3, 1), &maze));
    assert!(!imperfect::is_cell_deadend((2, 1), &maze));
}

#[test]
fn test_grid_cell_queries() {
    let maze = Maze::new(21, 21);
    let cell = maze.get_cell(1, 1).unwrap();
    assert_eq!((cell.x, cell.y), (1, 1));
    assert!(maze.get_cell(21, 0).is_none());

    let neighbours = maze.get_cell_neighbours(&cell);
    assert_eq!(neighbours.len(), 2);
    assert_eq!((neighbours[0].0.x, neighbours[0].0.y), (1, 3));
    assert!(matches!(neighbours[0].1, Direction::South));
    assert_eq!((neighbours[1].0.x, neighbours[1].0.y), (3, 1));
    assert!(matches!(neighbours[1].1, Direction::East));
}

#[test]
fn test_node_wall_flag() {
    assert!(Node::new(true).is_wall());
    assert!(!Node::new(false).is_wall());
}

#[test]
fn test_pick_stays_below_bound() {
    let mut rng = RandomSource::Ambient;
    assert_eq!(rng.pick(1), 0);
    for bound in 2..20usize {
        assert!(rng.pick(bound) < bound);
    }
}

#[test]
fn test_dfs_imperfect() {
    // The post-processor's growth is a random quantity, so this runs
    // the pipeline from a fixed seed: the perfect maze has 4999 open
    // coordinates and the selected dead ends open thirteen distinct
    // slots.
    let mut rng = RandomSource::from_seed(99);
    let maze = dfs::generate(100, 100, &mut rng);
    let looped = imperfect::generate(maze, &mut rng);
    assert_eq!(looped.open_count(), 5012);
}
