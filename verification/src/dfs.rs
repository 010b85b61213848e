//! The recursive-backtracker generator: a stack-based randomized
//! depth-first carver that produces a perfect maze (a spanning tree of
//! the cell graph).

use vstd::prelude::*;
use crate::maze::{Direction, Maze};
use crate::paths::{
    adj2, cell_set, connected, dist1, lemma_cell_set_len, lemma_closed_covers,
    lemma_connected_mono, lemma_connected_step, valid_cell, wall_joins_open_cells,
};
use crate::rng::RandomSource;

verus! {

/// The set of valid cells of `m` that are open (already carved).
pub open spec fn open_cells(m: Maze) -> Set<(u32, u32)> {
    Set::new(
        |c: (u32, u32)|
            valid_cell(m.spec_height(), m.spec_width(), c) && m.is_open(c.0 as int, c.1 as int),
    )
}

/// Every open coordinate satisfies the spanning structure: it is a
/// cell, or a wall slot joining two open cells.
pub open spec fn open_structure(m: Maze) -> bool {
    forall|c: (u32, u32)|
        m.is_open(c.0 as int, c.1 as int) && !(c.0 % 2 == 1 && c.1 % 2 == 1)
            ==> wall_joins_open_cells(m, c.0 as int, c.1 as int)
}

/// Every open coordinate has a walk back to the start cell (1, 1).
pub open spec fn rooted(m: Maze) -> bool {
    forall|c: (u32, u32)|
        m.is_open(c.0 as int, c.1 as int) ==> connected(m, (1u32, 1u32), c)
}

/// The wall-slot coordinate exactly between two cells that are two
/// steps apart.
pub open spec fn wall_between(a: (u32, u32), b: (u32, u32)) -> (u32, u32) {
    (((a.0 + b.0) / 2) as u32, ((a.1 + b.1) / 2) as u32)
}

/// Every valid cell two steps from `c` is open in `m`: the carver is
/// finished with `c`.
pub open spec fn cell_done(m: Maze, c: (u32, u32)) -> bool {
    forall|n: (u32, u32)|
        valid_cell(m.spec_height(), m.spec_width(), n) && adj2(c, n) ==> m.is_open(
            n.0 as int,
            n.1 as int,
        )
}

/// The coordinate two steps from `position` towards `dir`, or `None`
/// where the step would leave the grid at its low edge.  The guards on
/// the north and west arms keep the unsigned arithmetic from wrapping.
pub fn get_direction(dir: Direction, position: (u32, u32)) -> (r: Option<(u32, u32)>)
    requires
        position.0 + 2 <= u32::MAX,
        position.1 + 2 <= u32::MAX,
    ensures
        r == match dir {
            Direction::North => if position.1 >= 3 {
                Some((position.0, (position.1 - 2) as u32))
            } else {
                None
            },
            Direction::East => Some(((position.0 + 2) as u32, position.1)),
            Direction::South => Some((position.0, (position.1 + 2) as u32)),
            Direction::West => if position.0 >= 3 {
                Some(((position.0 - 2) as u32, position.1))
            } else {
                None
            },
        },
{
    match dir {
        Direction::North => {
            if position.1 >= 3 {
                Some((position.0, position.1 - 2))
            } else {
                None
            }
        },
        Direction::East => Some((position.0 + 2, position.1)),
        Direction::South => Some((position.0, position.1 + 2)),
        Direction::West => {
            if position.0 >= 3 {
                Some((position.0 - 2, position.1))
            } else {
                None
            }
        },
    }
}

/// The wall slot between a position and a target two steps away.
pub fn find_wall_position(start: (u32, u32), target: (u32, u32)) -> (r: (u32, u32))
    requires
        adj2(start, target),
    ensures
        r == wall_between(start, target),
        dist1(start, r),
        dist1(r, target),
    {
    if target.0 > start.0 {
        (start.0 + 1, start.1)
    } else if target.0 < start.0 {
        (start.0 - 1, start.1)
    } else if target.1 > start.1 {
        (start.0, start.1 + 1)
    } else {
        (start.0, start.1 - 1)
    }
}

/// A uniformly chosen unvisited cell two steps from `position`, or
/// `None` when all in-range neighbour cells are already open.
pub fn get_next_position(maze: &Maze, position: (u32, u32), rng: &mut RandomSource) -> (r: Option<
    (u32, u32),
>)
    requires
        maze.wf(),
        valid_cell(maze.spec_height(), maze.spec_width(), position),
    ensures
        match r {
            Some(n) => valid_cell(maze.spec_height(), maze.spec_width(), n) && adj2(position, n)
                && !maze.is_open(n.0 as int, n.1 as int),
            None => cell_done(*maze, position),
        },
{
    proof {
        lemma_dims_give_room(*maze);
    }
    let mut candidates: Vec<(u32, u32)> = Vec::new();
    if let Some(t) = get_direction(Direction::North, position) {
        if !maze.is_open_at(t.0, t.1) {
            candidates.push(t);
        }
    }
    if let Some(t) = get_direction(Direction::East, position) {
        if t.0 < maze.width() && !maze.is_open_at(t.0, t.1) {
            candidates.push(t);
        }
    }
    if let Some(t) = get_direction(Direction::South, position) {
        if t.1 < maze.height() && !maze.is_open_at(t.0, t.1) {
            candidates.push(t);
        }
    }
    if let Some(t) = get_direction(Direction::West, position) {
        if !maze.is_open_at(t.0, t.1) {
            candidates.push(t);
        }
    }
    if candidates.len() == 0 {
        proof {
            assert forall|n: (u32, u32)|
                valid_cell(maze.spec_height(), maze.spec_width(), n) && adj2(
                    position,
                    n,
                ) implies maze.is_open(n.0 as int, n.1 as int) by {
                assert(n == (position.0, (position.1 - 2) as u32) || n == (
                    (position.0 + 2) as u32,
                    position.1,
                ) || n == (position.0, (position.1 + 2) as u32) || n == (
                    (position.0 - 2) as u32,
                    position.1,
                ));
            }
        }
        None
    } else {
        let i = rng.pick(candidates.len());
        Some(candidates[i])
    }
}

/// Opens the target cell and the wall slot between it and the current
/// position, and moves there.
pub fn move_to_position(maze: &mut Maze, point: (u32, u32), target: (u32, u32)) -> (r: (u32, u32))
    requires
        old(maze).wf(),
        old(maze).in_bounds(point.0 as int, point.1 as int),
        old(maze).in_bounds(target.0 as int, target.1 as int),
        adj2(point, target),
    ensures
        r == target,
        final(maze).wf(),
        final(maze).spec_height() == old(maze).spec_height(),
        final(maze).spec_width() == old(maze).spec_width(),
        forall|a: int, b: int|
            final(maze).is_open(a, b) <==> (old(maze).is_open(a, b) || (a, b) == (
                target.0 as int,
                target.1 as int,
            ) || (a, b) == (
                wall_between(point, target).0 as int,
                wall_between(point, target).1 as int,
            )),
        final(maze).open_count_spec() == old(maze).open_count_spec() + (if old(maze).is_open(
            wall_between(point, target).0 as int,
            wall_between(point, target).1 as int,
        ) {
            0int
        } else {
            1int
        }) + (if old(maze).is_open(target.0 as int, target.1 as int) {
            0int
        } else {
            1int
        }),
{
    let wall = find_wall_position(point, target);
    let ghost m0 = *maze;
    proof {
        crate::maze::lemma_coord_index_bound(
            wall.0 as int,
            wall.1 as int,
            maze.spec_width() as int,
            maze.spec_height() as int,
        );
        crate::maze::lemma_coord_index_bound(
            target.0 as int,
            target.1 as int,
            maze.spec_width() as int,
            maze.spec_height() as int,
        );
        crate::maze::lemma_coord_index_injective(
            wall.0 as int,
            wall.1 as int,
            target.0 as int,
            target.1 as int,
            maze.spec_width() as int,
            maze.spec_height() as int,
        );
    }
    maze.set_open(wall.0, wall.1);
    let ghost m1 = *maze;
    maze.set_open(target.0, target.1);
    proof {
        let w = m0.spec_width() as int;
        let wi = wall.0 + wall.1 * w;
        let ti = target.0 + target.1 * w;
        crate::maze::lemma_count_trues_update(m0.grid(), wi);
        crate::maze::lemma_count_trues_update(m1.grid(), ti);
        assert(m1.grid()[ti] == m0.grid()[ti]);
    }
    target
}

/// The number of valid cells fits a u32 and is at least one.
pub proof fn lemma_v_target_fits(height: u32, width: u32)
    requires
        height % 2 == 1,
        width % 2 == 1,
        3 <= height,
        3 <= width,
        height * width <= u32::MAX,
    ensures
        1 <= crate::cell_count(height, width),
        ((width - 1) / 2) * ((height - 1) / 2) <= u32::MAX,
{
    assert(((width - 1) / 2) * ((height - 1) / 2) <= width * height) by (nonlinear_arith)
        requires
            3 <= height,
            3 <= width,
    ;
    assert(1 <= ((width - 1) / 2) * ((height - 1) / 2)) by (nonlinear_arith)
        requires
            3 <= height,
            3 <= width,
    ;
}

/// Carves a perfect maze by randomized depth-first backtracking: from
/// the start cell, repeatedly open the wall to a randomly chosen
/// unvisited neighbour cell and move there, backtracking along the
/// stack when no unvisited neighbour is left.  The result opens every
/// cell and exactly one spanning tree of wall slots, so its size is
/// twice the cell count minus one, and every open coordinate is
/// reachable from the start.
pub fn generate(height: u32, width: u32, rng: &mut RandomSource) -> (r: Maze)
    requires
        2 <= height < u32::MAX,
        2 <= width < u32::MAX,
        crate::maze::spec_normalize_dim(height) * crate::maze::spec_normalize_dim(width)
            <= u32::MAX,
    ensures
        r.wf(),
        r.spec_height() == crate::maze::spec_normalize_dim(height),
        r.spec_width() == crate::maze::spec_normalize_dim(width),
        r.open_count_spec() == 2 * crate::cell_count(r.spec_height(), r.spec_width()) - 1,
        forall|c: (u32, u32)|
            valid_cell(r.spec_height(), r.spec_width(), c) ==> r.is_open(c.0 as int, c.1 as int),
        open_structure(r),
        rooted(r),
{
    let mut m = Maze::new(height, width);
    let h = m.height();
    let w = m.width();
    proof {
        lemma_v_target_fits(h, w);
    }
    let v_target: u32 = ((w - 1) / 2) * ((h - 1) / 2);
    let mut visited_count: u32 = 1;
    let mut stack: Vec<(u32, u32)> = Vec::new();
    let mut current: (u32, u32) = (1, 1);
    let ghost mut vset: Set<(u32, u32)> = Set::empty().insert((1u32, 1u32));
    proof {
        assert(vset =~= open_cells(m));
        assert(vset.len() == 1);
        crate::paths::lemma_connected_refl(m, (1u32, 1u32));
        assert forall|c: (u32, u32)| m.is_open(c.0 as int, c.1 as int) implies connected(
            m,
            (1u32, 1u32),
            c,
        ) by {
            assert(c == (1u32, 1u32));
        }
    }
    while visited_count < v_target
        invariant
            m.wf(),
            m.spec_height() == h,
            m.spec_width() == w,
            h == crate::maze::spec_normalize_dim(height),
            w == crate::maze::spec_normalize_dim(width),
            v_target == crate::cell_count(h, w),
            1 <= visited_count <= v_target,
            m.is_open(1, 1),
            valid_cell(h, w, current),
            m.is_open(current.0 as int, current.1 as int),
            forall|i: int|
                0 <= i < stack@.len() ==> valid_cell(h, w, #[trigger] stack@[i]) && m.is_open(
                    stack@[i].0 as int,
                    stack@[i].1 as int,
                ),
            vset == open_cells(m),
            vset.finite(),
            vset.len() == visited_count,
            m.open_count_spec() == 2 * visited_count - 1,
            forall|c: (u32, u32)| #[trigger]
                vset.contains(c) ==> c == current || stack@.contains(c) || cell_done(m, c),
            open_structure(m),
            rooted(m),
        ensures
            visited_count == v_target,
        decreases v_target - visited_count, stack@.len(),
    {
        let next_opt = get_next_position(&m, current, rng);
        if let Some(next) = next_opt {
            let ghost old_stack = stack@;
            stack.push(current);
            let ghost m_old = m;
            move_to_position(&mut m, current, next);
            let ghost wall = wall_between(current, next);
            proof {
                // The wall slot lies between the two cells and was
                // closed, since an open slot joins two open cells and
                // `next` was closed.
                assert(dist1(current, wall) && dist1(wall, next));
                assert(!(wall.0 % 2 == 1 && wall.1 % 2 == 1));
                assert(wall_joins_open_cells(m_old, wall.0 as int, wall.1 as int) ==> m_old.is_open(
                    next.0 as int,
                    next.1 as int,
                ));
                assert(!m_old.is_open(wall.0 as int, wall.1 as int));
                assert(m.open_count_spec() == m_old.open_count_spec() + 2);

                // The visited set gains exactly the chosen cell.
                assert(!vset.contains(next));
                vset = vset.insert(next);
                assert(vset =~= open_cells(m));
                lemma_cell_set_len(h, w);
                assert(vset.subset_of(cell_set(h, w)));
                vstd::set_lib::lemma_len_subset(vset, cell_set(h, w));

                // The stack keeps everything it held and gains the old
                // current cell.
                assert forall|c: (u32, u32)| old_stack.contains(c) implies stack@.contains(c) by {
                    let i = choose|i: int| 0 <= i < old_stack.len() && old_stack[i] == c;
                    assert(stack@[i] == c);
                }
                assert(stack@[old_stack.len() as int] == current);
                assert(stack@.contains(current));

                // Closure: every visited cell is the new current cell,
                // on the stack, or fully carved around.
                assert forall|c: (u32, u32)| #[trigger] vset.contains(c) implies c == next
                    || stack@.contains(c) || cell_done(m, c) by {
                    if c != next && !stack@.contains(c) {
                        assert(open_cells(m_old).contains(c));
                        assert(cell_done(m_old, c));
                        assert forall|n: (u32, u32)|
                            valid_cell(h, w, n) && adj2(c, n) implies m.is_open(
                            n.0 as int,
                            n.1 as int,
                        ) by {
                            assert(m_old.is_open(n.0 as int, n.1 as int));
                        }
                    }
                }

                // Structure: the new wall slot joins two open cells.
                assert(wall_joins_open_cells(m, wall.0 as int, wall.1 as int));
                assert forall|c: (u32, u32)|
                    m.is_open(c.0 as int, c.1 as int) && !(c.0 % 2 == 1 && c.1 % 2
                        == 1) implies wall_joins_open_cells(m, c.0 as int, c.1 as int) by {
                    if c != wall {
                        assert(m_old.is_open(c.0 as int, c.1 as int));
                        assert(wall_joins_open_cells(m_old, c.0 as int, c.1 as int));
                    }
                }

                // Connectivity: old opens keep their walks; the wall
                // and the new cell extend the walk of the old current.
                assert forall|c: (u32, u32)| m.is_open(c.0 as int, c.1 as int) implies connected(
                    m,
                    (1u32, 1u32),
                    c,
                ) by {
                    lemma_connected_mono(m_old, m, (1u32, 1u32), current);
                    lemma_connected_step(m, (1u32, 1u32), current, wall);
                    if c == wall {
                    } else if c == next {
                        lemma_connected_step(m, (1u32, 1u32), wall, next);
                    } else {
                        assert(m_old.is_open(c.0 as int, c.1 as int));
                        lemma_connected_mono(m_old, m, (1u32, 1u32), c);
                    }
                }
            }
            current = next;
            visited_count = visited_count + 1;
        } else {
            proof {
                assert(cell_done(m, current));
            }
            if stack.len() > 0 {
                let ghost old_stack = stack@;
                let popped = stack.pop().unwrap();
                proof {
                    assert forall|c: (u32, u32)| #[trigger] vset.contains(c) implies c == popped
                        || stack@.contains(c) || cell_done(m, c) by {
                        if c != popped && !cell_done(m, c) {
                            assert(old_stack.contains(c));
                            let i = choose|i: int| 0 <= i < old_stack.len() && old_stack[i] == c;
                            if i < old_stack.len() - 1 {
                                assert(stack@[i] == c);
                            }
                        }
                    }
                }
                current = popped;
            } else {
                proof {
                    // The stack is exhausted: the visited set is closed
                    // under grid adjacency, so it covers every cell.
                    assert forall|a: (u32, u32), b: (u32, u32)|
                        vset.contains(a) && valid_cell(h, w, b) && adj2(a, b) implies vset.contains(
                        b,
                    ) by {
                        assert(cell_done(m, a));
                        assert(m.is_open(b.0 as int, b.1 as int));
                    }
                    assert(vset.contains((1u32, 1u32)));
                    assert forall|c: (u32, u32)| valid_cell(h, w, c) implies vset.contains(c) by {
                        lemma_closed_covers(h, w, vset, c);
                    }
                    assert(vset =~= cell_set(h, w));
                    lemma_cell_set_len(h, w);
                }
                break ;
            }
        }
    }
    proof {
        // Every cell is visited once the count is reached.
        lemma_cell_set_len(h, w);
        assert forall|c: (u32, u32)| valid_cell(h, w, c) implies m.is_open(
            c.0 as int,
            c.1 as int,
        ) by {
            if !vset.contains(c) {
                vset.lemma_subset_not_in_lt(cell_set(h, w), c);
            }
        }
    }
    m
}

/// Lists the open coordinates of a maze, row by row: one entry for
/// every open coordinate and nothing else.
pub fn convert_nodes_to_visited(maze: &Maze) -> (r: Vec<(u32, u32)>)
    requires
        maze.wf(),
    ensures
        r@.len() == maze.open_count_spec(),
        forall|i: int| 0 <= i < r@.len() ==> maze.is_open(#[trigger] r@[i].0 as int, r@[i].1 as int),
        forall|c: (u32, u32)| maze.is_open(c.0 as int, c.1 as int) ==> r@.contains(c),
{
    let h = maze.height();
    let w = maze.width();
    let mut r: Vec<(u32, u32)> = Vec::new();
    let mut y: u32 = 0;
    while y < h
        invariant
            maze.wf(),
            maze.spec_height() == h,
            maze.spec_width() == w,
            y <= h,
            r@.len() == crate::maze::count_trues(maze.grid().take(y * w)),
            forall|i: int|
                0 <= i < r@.len() ==> maze.is_open(#[trigger] r@[i].0 as int, r@[i].1 as int),
            forall|c: (u32, u32)|
                maze.is_open(c.0 as int, c.1 as int) && c.1 < y ==> r@.contains(c),
        decreases h - y,
    {
        let mut x: u32 = 0;
        while x < w
            invariant
                maze.wf(),
                maze.spec_height() == h,
                maze.spec_width() == w,
                y < h,
                x <= w,
                r@.len() == crate::maze::count_trues(maze.grid().take(y * w + x)),
                forall|i: int|
                    0 <= i < r@.len() ==> maze.is_open(#[trigger] r@[i].0 as int, r@[i].1 as int),
                forall|c: (u32, u32)|
                    maze.is_open(c.0 as int, c.1 as int) && (c.1 < y || (c.1 == y && c.0 < x))
                        ==> r@.contains(c),
            decreases w - x,
        {
            proof {
                crate::maze::lemma_coord_index_bound(
                    x as int,
                    y as int,
                    w as int,
                    h as int,
                );
                crate::maze::lemma_count_trues_take_step(maze.grid(), y * w + x);
            }
            let ghost r_old = r@;
            if maze.is_open_at(x, y) {
                r.push((x, y));
            }
            proof {
                assert forall|c: (u32, u32)|
                    maze.is_open(c.0 as int, c.1 as int) && (c.1 < y || (c.1 == y && c.0 < x
                        + 1)) implies r@.contains(c) by {
                    if c.1 == y as u32 && c.0 == x as u32 {
                        assert(r@[r@.len() - 1] == c);
                    } else {
                        assert(r_old.contains(c));
                        let i = choose|i: int| 0 <= i < r_old.len() && r_old[i] == c;
                        assert(r@[i] == c);
                    }
                }
            }
            x = x + 1;
        }
        proof {
            assert(y * w + w == (y + 1) * w) by (nonlinear_arith);
        }
        y = y + 1;
    }
    proof {
        assert(maze.grid().take((h * w) as int) =~= maze.grid());
        assert forall|c: (u32, u32)|
            maze.is_open(c.0 as int, c.1 as int) implies r@.contains(c) by {
            assert(c.1 < h);
        }
    }
    r
}

/// Odd grid dimensions of at least 3 whose product fits leave room for
/// two-step arithmetic on any in-bounds coordinate.
pub proof fn lemma_dims_give_room(m: Maze)
    requires
        m.wf(),
    ensures
        m.spec_width() + 2 <= u32::MAX,
        m.spec_height() + 2 <= u32::MAX,
{
    assert(3 * m.spec_width() <= m.spec_height() * m.spec_width()) by (nonlinear_arith)
        requires
            m.spec_height() >= 3,
            m.spec_width() >= 0,
    ;
    assert(3 * m.spec_height() <= m.spec_height() * m.spec_width()) by (nonlinear_arith)
        requires
            m.spec_width() >= 3,
            m.spec_height() >= 0,
    ;
}

} // verus!
