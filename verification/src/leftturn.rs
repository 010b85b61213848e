//! The wall-following solver: a single agent with a position and a
//! facing, no memory.  At each step it turns left if that way is
//! open, else goes straight, else right, else back.  On a maze with
//! cycles the agent can walk forever, so the caller supplies a step
//! bound; exceeding it is a distinct failure.

use vstd::prelude::*;
use crate::maze::{Direction, Maze, MazeError};
use crate::paths::{dist1, is_open_path};

verus! {

/// The agent: a position and a facing direction.
pub struct Person {
    pub x: u32,
    pub y: u32,
    pub facing: Direction,
}

/// The direction to the agent's left.
pub open spec fn spec_left_of(d: Direction) -> Direction {
    match d {
        Direction::North => Direction::West,
        Direction::East => Direction::North,
        Direction::South => Direction::East,
        Direction::West => Direction::South,
    }
}

/// The direction to the agent's right.
pub open spec fn spec_right_of(d: Direction) -> Direction {
    match d {
        Direction::North => Direction::East,
        Direction::East => Direction::South,
        Direction::South => Direction::West,
        Direction::West => Direction::North,
    }
}

/// The direction behind the agent.
pub open spec fn spec_back_of(d: Direction) -> Direction {
    match d {
        Direction::North => Direction::South,
        Direction::East => Direction::West,
        Direction::South => Direction::North,
        Direction::West => Direction::East,
    }
}

/// The coordinate one step from `pos` towards `d`, when it is open;
/// `None` where the step leaves the grid or runs into a wall.
pub open spec fn step_target(m: Maze, pos: (u32, u32), d: Direction) -> Option<(u32, u32)> {
    let t: (u32, u32) = match d {
        Direction::North => (pos.0, (pos.1 - 1) as u32),
        Direction::East => ((pos.0 + 1) as u32, pos.1),
        Direction::South => (pos.0, (pos.1 + 1) as u32),
        Direction::West => ((pos.0 - 1) as u32, pos.1),
    };
    let in_low = match d {
        Direction::North => pos.1 >= 1,
        Direction::West => pos.0 >= 1,
        _ => true,
    };
    if in_low && m.is_open(t.0 as int, t.1 as int) {
        Some(t)
    } else {
        None
    }
}

/// The wall-following rule: left, straight, right, back; `None` when
/// every side is walled off.
pub open spec fn next_step(m: Maze, pos: (u32, u32), f: Direction) -> Option<
    ((u32, u32), Direction),
> {
    if step_target(m, pos, spec_left_of(f)) is Some {
        Some((step_target(m, pos, spec_left_of(f))->Some_0, spec_left_of(f)))
    } else if step_target(m, pos, f) is Some {
        Some((step_target(m, pos, f)->Some_0, f))
    } else if step_target(m, pos, spec_right_of(f)) is Some {
        Some((step_target(m, pos, spec_right_of(f))->Some_0, spec_right_of(f)))
    } else if step_target(m, pos, spec_back_of(f)) is Some {
        Some((step_target(m, pos, spec_back_of(f))->Some_0, spec_back_of(f)))
    } else {
        None
    }
}

/// The whole walk of the agent: every coordinate it visits, revisits
/// included, until it reaches `end` or the fuel runs out (or it is
/// walled in); `None` when it does not reach `end`.
pub open spec fn spec_walk(
    m: Maze,
    pos: (u32, u32),
    f: Direction,
    end: (u32, u32),
    fuel: nat,
) -> Option<Seq<(u32, u32)>>
    decreases fuel,
{
    if pos == end {
        Some(seq![pos])
    } else if fuel == 0 {
        None
    } else {
        match next_step(m, pos, f) {
            None => None,
            Some(step) => match spec_walk(m, step.0, step.1, end, (fuel - 1) as nat) {
                None => None,
                Some(rest) => Some(seq![pos] + rest),
            },
        }
    }
}

/// The open coordinate one step towards `direction`, if any.
pub fn get_direction(maze: &Maze, person: &Person, direction: Direction) -> (r: Option<(u32, u32)>)
    requires
        maze.wf(),
        maze.in_bounds(person.x as int, person.y as int),
    ensures
        r == step_target(*maze, (person.x, person.y), direction),
{
    proof {
        crate::dfs::lemma_dims_give_room(*maze);
    }
    match direction {
        Direction::North => {
            if person.y >= 1 {
                get_node(maze, person.x, person.y - 1)
            } else {
                None
            }
        },
        Direction::East => get_node(maze, person.x + 1, person.y),
        Direction::South => get_node(maze, person.x, person.y + 1),
        Direction::West => {
            if person.x >= 1 {
                get_node(maze, person.x - 1, person.y)
            } else {
                None
            }
        },
    }
}

/// The coordinate (x, y) when it is open.
pub fn get_node(maze: &Maze, x: u32, y: u32) -> (r: Option<(u32, u32)>)
    requires
        maze.wf(),
    ensures
        r == if maze.is_open(x as int, y as int) {
            Some((x, y))
        } else {
            None::<(u32, u32)>
        },
{
    if maze.is_open_at(x, y) {
        Some((x, y))
    } else {
        None
    }
}

/// Moves the agent to the given position and facing.
pub fn move_person(person: Person, position: (u32, u32), new_facing: Direction) -> (r: Person)
    ensures
        r.x == position.0 && r.y == position.1 && r.facing == new_facing,
{
    Person { x: position.0, y: position.1, facing: new_facing }
}

/// A step to the agent's left, with the new facing.
pub fn look_left(maze: &Maze, person: &Person) -> (r: (Option<(u32, u32)>, Direction))
    requires
        maze.wf(),
        maze.in_bounds(person.x as int, person.y as int),
    ensures
        r.1 == spec_left_of(person.facing),
        r.0 == step_target(*maze, (person.x, person.y), r.1),
{
    match person.facing {
        Direction::North => (get_direction(maze, person, Direction::West), Direction::West),
        Direction::East => (get_direction(maze, person, Direction::North), Direction::North),
        Direction::South => (get_direction(maze, person, Direction::East), Direction::East),
        Direction::West => (get_direction(maze, person, Direction::South), Direction::South),
    }
}

/// A step to the agent's right, with the new facing.
pub fn look_right(maze: &Maze, person: &Person) -> (r: (Option<(u32, u32)>, Direction))
    requires
        maze.wf(),
        maze.in_bounds(person.x as int, person.y as int),
    ensures
        r.1 == spec_right_of(person.facing),
        r.0 == step_target(*maze, (person.x, person.y), r.1),
{
    match person.facing {
        Direction::North => (get_direction(maze, person, Direction::East), Direction::East),
        Direction::East => (get_direction(maze, person, Direction::South), Direction::South),
        Direction::South => (get_direction(maze, person, Direction::West), Direction::West),
        Direction::West => (get_direction(maze, person, Direction::North), Direction::North),
    }
}

/// A step backwards, with the new facing.
pub fn look_back(maze: &Maze, person: &Person) -> (r: Option<((u32, u32), Direction)>)
    requires
        maze.wf(),
        maze.in_bounds(person.x as int, person.y as int),
    ensures
        r == match step_target(*maze, (person.x, person.y), spec_back_of(person.facing)) {
            Some(t) => Some((t, spec_back_of(person.facing))),
            None => None::<((u32, u32), Direction)>,
        },
{
    let back = match person.facing {
        Direction::North => Direction::South,
        Direction::East => Direction::West,
        Direction::South => Direction::North,
        Direction::West => Direction::East,
    };
    match get_direction(maze, person, back) {
        Some(position) => Some((position, back)),
        None => None,
    }
}

/// The wall-following rule: left, straight, right, back.
pub fn find_next_step(maze: &Maze, person: &Person) -> (r: Option<((u32, u32), Direction)>)
    requires
        maze.wf(),
        maze.in_bounds(person.x as int, person.y as int),
    ensures
        r == next_step(*maze, (person.x, person.y), person.facing),
{
    let (left, ldir) = look_left(maze, person);
    if let Some(l) = left {
        return Some((l, ldir));
    }
    if let Some(forward) = get_direction(maze, person, person.facing) {
        return Some((forward, person.facing));
    }
    let (right, rdir) = look_right(maze, person);
    if let Some(rt) = right {
        return Some((rt, rdir));
    }
    look_back(maze, person)
}

/// Joins a visited prefix with the rest of a walk.
pub open spec fn glue(prefix: Seq<(u32, u32)>, rest: Option<Seq<(u32, u32)>>) -> Option<
    Seq<(u32, u32)>,
> {
    match rest {
        None => None,
        Some(t) => Some(prefix + t),
    }
}

/// Follows the left-hand wall from `start` (facing south) until the
/// agent stands on `end`, for at most `max_steps` steps.  The result
/// is exactly the agent's walk: every visited coordinate in order,
/// revisits included.  The error says the walk did not reach `end`
/// within the bound (on a maze with cycles the agent can circle
/// forever, so the bound is the caller's duty).
pub fn left_first(start: (u32, u32), end: (u32, u32), maze: &Maze, max_steps: u32) -> (r: Result<
    Vec<(u32, u32)>,
    MazeError,
>)
    requires
        maze.wf(),
        maze.is_open(start.0 as int, start.1 as int),
    ensures
        match r {
            Ok(p) => {
                &&& spec_walk(*maze, start, Direction::South, end, max_steps as nat) == Some(p@)
                &&& is_open_path(*maze, p@)
                &&& p@.first() == start
                &&& p@.last() == end
            },
            Err(e) => e == MazeError::UnboundedWalk && spec_walk(
                *maze,
                start,
                Direction::South,
                end,
                max_steps as nat,
            ) is None,
        },
{
    let mut person = Person { x: start.0, y: start.1, facing: Direction::South };
    let mut path: Vec<(u32, u32)> = Vec::new();
    let mut fuel = max_steps;
    loop
        invariant
            maze.wf(),
            maze.is_open(person.x as int, person.y as int),
            fuel <= max_steps,
            path@.len() == 0 ==> (person.x, person.y) == start,
            path@.len() > 0 ==> path@.first() == start && dist1(
                path@.last(),
                (person.x, person.y),
            ),
            forall|i: int|
                0 <= i < path@.len() ==> maze.is_open(
                    #[trigger] path@[i].0 as int,
                    path@[i].1 as int,
                ),
            forall|i: int| 0 <= i < path@.len() - 1 ==> dist1(#[trigger] path@[i], path@[i + 1]),
            spec_walk(*maze, start, Direction::South, end, max_steps as nat) == glue(
                path@,
                spec_walk(*maze, (person.x, person.y), person.facing, end, fuel as nat),
            ),
        decreases fuel,
    {
        if person.x == end.0 && person.y == end.1 {
            path.push((person.x, person.y));
            proof {
                assert(spec_walk(*maze, (person.x, person.y), person.facing, end, fuel as nat)
                    == Some(seq![(person.x, person.y)]));
                assert(path@ =~= path@.drop_last() + seq![(person.x, person.y)]);
            }
            return Ok(path);
        }
        if fuel == 0 {
            proof {
                assert(spec_walk(*maze, (person.x, person.y), person.facing, end, 0) is None);
            }
            return Err(MazeError::UnboundedWalk);
        }
        let step = find_next_step(maze, &person);
        match step {
            None => {
                return Err(MazeError::UnboundedWalk);
            },
            Some((next, dir)) => {
                let ghost old_path = path@;
                let ghost old_pos = (person.x, person.y);
                let ghost old_f = person.facing;
                path.push((person.x, person.y));
                person = move_person(person, next, dir);
                fuel = fuel - 1;
                proof {
                    assert(maze.is_open(next.0 as int, next.1 as int) && dist1(old_pos, next));
                    assert(spec_walk(*maze, old_pos, old_f, end, (fuel + 1) as nat) == match
                        spec_walk(*maze, next, dir, end, fuel as nat) {
                        None => None::<Seq<(u32, u32)>>,
                        Some(rest) => Some(seq![old_pos] + rest),
                    });
                    assert forall|rest: Seq<(u32, u32)>| true implies old_path + (seq![old_pos]
                        + rest) =~= path@ + rest by {}
                    assert(glue(old_path, spec_walk(*maze, old_pos, old_f, end, (fuel + 1) as nat))
                        == glue(path@, spec_walk(*maze, next, dir, end, fuel as nat)));
                }
            },
        }
    }
}

} // verus!
