//! The imperfect-maze post-processor: converts a fixed share of dead
//! ends (one in twenty, rounded up) into loops by opening one more
//! wall slot next to each chosen dead end.

use vstd::prelude::*;
use crate::maze::Maze;
use crate::maze::Direction;
use crate::paths::{connected, dist1, lemma_connected_mono, lemma_connected_step, step_entry, valid_cell, wall_joins_open_cells};
use crate::dfs::{find_wall_position, open_structure, rooted, wall_between};
use crate::rng::RandomSource;

verus! {

/// Two coordinates `offset` steps apart on one axis.
pub open spec fn axis_dist(a: (u32, u32), b: (u32, u32), k: int) -> bool {
    ||| (a.0 == b.0 && (a.1 + k == b.1 || b.1 + k == a.1))
    ||| (a.1 == b.1 && (a.0 + k == b.0 || b.0 + k == a.0))
}

/// The cell has two distinct open cells two steps away, so a dead end
/// here can be joined to a neighbour it is not yet connected to.
pub open spec fn has_loop_option(m: Maze, c: (u32, u32)) -> bool {
    exists|n1: (u32, u32), n2: (u32, u32)|
        {
            &&& n1 != n2
            &&& m.is_open(#[trigger] n1.0 as int, n1.1 as int)
            &&& m.is_open(#[trigger] n2.0 as int, n2.1 as int)
            &&& axis_dist(c, n1, 2)
            &&& axis_dist(c, n2, 2)
        }
}

/// A dead end: an open coordinate with exactly one open neighbour one
/// step away.
pub open spec fn spec_deadend(m: Maze, c: (u32, u32)) -> bool {
    exists|n: (u32, u32)|
        {
            &&& m.is_open(#[trigger] n.0 as int, n.1 as int)
            &&& dist1(c, n)
            &&& forall|n2: (u32, u32)|
                m.is_open(#[trigger] n2.0 as int, n2.1 as int) && dist1(c, n2) ==> n2 == n
        }
}

/// The dead-end cells of a maze: open valid cells with exactly one
/// open neighbour one step away.
pub open spec fn deadend_cells(m: Maze) -> Set<(u32, u32)> {
    Set::new(
        |c: (u32, u32)|
            valid_cell(m.spec_height(), m.spec_width(), c) && m.is_open(c.0 as int, c.1 as int)
                && spec_deadend(m, c),
    )
}

/// How many dead-end cells the maze has.
pub open spec fn deadend_count(m: Maze) -> nat {
    deadend_cells(m).len()
}

/// The open coordinates `offset` steps from `cell` on one axis, in
/// north, east, south, west order.  Directions that would leave the
/// grid at its low edge are omitted, never wrapped.
pub fn get_cell_neighbours(cell: (u32, u32), maze: &Maze, offset: u32) -> (r: Vec<(u32, u32)>)
    requires
        maze.wf(),
        maze.in_bounds(cell.0 as int, cell.1 as int),
        1 <= offset <= 2,
    ensures
        r@ == step_entry(*maze, cell, Direction::North, offset as int) + step_entry(
            *maze,
            cell,
            Direction::East,
            offset as int,
        ) + step_entry(*maze, cell, Direction::South, offset as int) + step_entry(
            *maze,
            cell,
            Direction::West,
            offset as int,
        ),
        r@.no_duplicates(),
        forall|i: int|
            0 <= i < r@.len() ==> maze.is_open(#[trigger] r@[i].0 as int, r@[i].1 as int)
                && axis_dist(cell, r@[i], offset as int),
        forall|n: (u32, u32)|
            maze.is_open(n.0 as int, n.1 as int) && axis_dist(cell, n, offset as int)
                ==> r@.contains(n),
{
    proof {
        crate::dfs::lemma_dims_give_room(*maze);
    }
    let mut neighbours: Vec<(u32, u32)> = Vec::new();
    let ghost mut i_north: int = -1;
    let ghost mut i_east: int = -1;
    let ghost mut i_south: int = -1;
    let ghost mut i_west: int = -1;
    if cell.1 >= offset && maze.is_open_at(cell.0, cell.1 - offset) {
        proof {
            i_north = neighbours@.len() as int;
        }
        neighbours.push((cell.0, cell.1 - offset));
    }
    if maze.is_open_at(cell.0 + offset, cell.1) {
        proof {
            i_east = neighbours@.len() as int;
        }
        neighbours.push((cell.0 + offset, cell.1));
    }
    if maze.is_open_at(cell.0, cell.1 + offset) {
        proof {
            i_south = neighbours@.len() as int;
        }
        neighbours.push((cell.0, cell.1 + offset));
    }
    if cell.0 >= offset && maze.is_open_at(cell.0 - offset, cell.1) {
        proof {
            i_west = neighbours@.len() as int;
        }
        neighbours.push((cell.0 - offset, cell.1));
    }
    proof {
        assert(neighbours@ =~= step_entry(*maze, cell, Direction::North, offset as int)
            + step_entry(*maze, cell, Direction::East, offset as int) + step_entry(
            *maze,
            cell,
            Direction::South,
            offset as int,
        ) + step_entry(*maze, cell, Direction::West, offset as int));
        assert forall|a: int, b: int|
            0 <= a < b < neighbours@.len() implies neighbours@[a] != neighbours@[b] by {}
        assert forall|n: (u32, u32)|
            maze.is_open(n.0 as int, n.1 as int) && axis_dist(
                cell,
                n,
                offset as int,
            ) implies neighbours@.contains(n) by {
            if n.0 == cell.0 && n.1 + offset == cell.1 {
                assert(neighbours@[i_north] == n);
            } else if n.1 == cell.1 && n.0 == cell.0 + offset {
                assert(neighbours@[i_east] == n);
            } else if n.0 == cell.0 && n.1 == cell.1 + offset {
                assert(neighbours@[i_south] == n);
            } else {
                assert(n.1 == cell.1 && n.0 + offset == cell.0);
                assert(neighbours@[i_west] == n);
            }
        }
    }
    neighbours
}

/// Whether `cell` is a dead end of the maze.
pub fn is_cell_deadend(cell: (u32, u32), maze: &Maze) -> (r: bool)
    requires
        maze.wf(),
        maze.in_bounds(cell.0 as int, cell.1 as int),
    ensures
        r == spec_deadend(*maze, cell),
{
    proof {
        crate::dfs::lemma_dims_give_room(*maze);
    }
    let bn = cell.1 >= 1 && maze.is_open_at(cell.0, cell.1 - 1);
    let be = maze.is_open_at(cell.0 + 1, cell.1);
    let bs = maze.is_open_at(cell.0, cell.1 + 1);
    let bw = cell.0 >= 1 && maze.is_open_at(cell.0 - 1, cell.1);
    let mut count: u32 = 0;
    if bn {
        count = count + 1;
    }
    if be {
        count = count + 1;
    }
    if bs {
        count = count + 1;
    }
    if bw {
        count = count + 1;
    }
    proof {
        let tn = (cell.0, (cell.1 - 1) as u32);
        let te = ((cell.0 + 1) as u32, cell.1);
        let ts = (cell.0, (cell.1 + 1) as u32);
        let tw = ((cell.0 - 1) as u32, cell.1);
        assert forall|n: (u32, u32)|
            maze.is_open(n.0 as int, n.1 as int) && dist1(cell, n) implies (n == tn && bn) || (n
            == te && be) || (n == ts && bs) || (n == tw && bw) by {}
        if count == 1 {
            if bn {
                assert(spec_deadend(*maze, cell)) by {
                    assert(maze.is_open(tn.0 as int, tn.1 as int) && dist1(cell, tn));
                }
            } else if be {
                assert(spec_deadend(*maze, cell)) by {
                    assert(maze.is_open(te.0 as int, te.1 as int) && dist1(cell, te));
                }
            } else if bs {
                assert(spec_deadend(*maze, cell)) by {
                    assert(maze.is_open(ts.0 as int, ts.1 as int) && dist1(cell, ts));
                }
            } else {
                assert(spec_deadend(*maze, cell)) by {
                    assert(maze.is_open(tw.0 as int, tw.1 as int) && dist1(cell, tw));
                }
            }
        } else {
            if spec_deadend(*maze, cell) {
                let n = choose|n: (u32, u32)|
                    {
                        &&& maze.is_open(#[trigger] n.0 as int, n.1 as int)
                        &&& dist1(cell, n)
                        &&& forall|n2: (u32, u32)|
                            maze.is_open(#[trigger] n2.0 as int, n2.1 as int) && dist1(cell, n2)
                                ==> n2 == n
                    };
                if count == 0 {
                    assert(false);
                } else {
                    if bn && n != tn {
                        assert(tn == n);
                    }
                    if be && n != te {
                        assert(te == n);
                    }
                    if bs && n != ts {
                        assert(ts == n);
                    }
                    if bw && n != tw {
                        assert(tw == n);
                    }
                    assert(false);
                }
            }
        }
    }
    count == 1
}

/// Removes the entry already connected to the dead end (the last one
/// one step away from the given path coordinate) from the candidate
/// list.
pub fn find_matching_cell_path(cells: Vec<(u32, u32)>, path_cell: (u32, u32)) -> (r: Vec<
    (u32, u32),
>)
    requires
        cells@.len() >= 1,
        path_cell.0 + 1 <= u32::MAX,
        path_cell.1 + 1 <= u32::MAX,
    ensures
        r@.len() == cells@.len() - 1,
        forall|i: int| 0 <= i < r@.len() ==> cells@.contains(#[trigger] r@[i]),
        exists|k: int|
            {
                &&& 0 <= k < cells@.len()
                &&& r@ == cells@.remove(k)
                &&& ((exists|j: int| 0 <= j < cells@.len() && dist1(path_cell, #[trigger] cells@[j]))
                    ==> dist1(path_cell, cells@[k]))
            },
{
    let mut index: usize = 0;
    let mut i: usize = 0;
    let n = cells.len();
    while i < n
        invariant
            n == cells@.len(),
            i <= n,
            index < n,
            path_cell.0 + 1 <= u32::MAX,
            path_cell.1 + 1 <= u32::MAX,
            (exists|j: int| 0 <= j < i && dist1(path_cell, #[trigger] cells@[j])) ==> dist1(
                path_cell,
                cells@[index as int],
            ),
        decreases n - i,
    {
        let c = cells[i];
        let matches_x = (c.0 == path_cell.0 + 1) || (path_cell.0 >= 1 && c.0 == path_cell.0 - 1);
        let matches_y = (c.1 == path_cell.1 + 1) || (path_cell.1 >= 1 && c.1 == path_cell.1 - 1);
        if (c.0 == path_cell.0 && matches_y) || (c.1 == path_cell.1 && matches_x) {
            proof {
                assert(dist1(path_cell, cells@[i as int]));
            }
            index = i;
        } else {
            proof {
                assert(!dist1(path_cell, cells@[i as int]));
            }
        }
        i = i + 1;
    }
    let mut out = cells;
    let ghost before = out@;
    proof {
        assert((exists|j: int| 0 <= j < before.len() && dist1(path_cell, #[trigger] before[j]))
            ==> dist1(path_cell, before[index as int]));
    }
    out.remove(index);
    proof {
        assert forall|i: int| 0 <= i < out@.len() implies before.contains(#[trigger] out@[i]) by {
            if i < index {
                assert(out@[i] == before[i]);
            } else {
                assert(out@[i] == before[i + 1]);
            }
        }
    }
    out
}

/// Opens one extra wall slot next to a dead-end cell, towards a
/// randomly chosen open neighbour cell other than the one it is
/// already connected to, creating a loop.  On a dead end with such a
/// second neighbour it opens exactly one previously closed slot, the
/// midpoint of the dead end and that neighbour; it does nothing when
/// no such neighbour exists.
#[verifier::rlimit(100)]
pub fn convert_to_path(cell: (u32, u32), maze: &mut Maze, rng: &mut RandomSource)
    requires
        old(maze).wf(),
        valid_cell(old(maze).spec_height(), old(maze).spec_width(), cell),
        old(maze).is_open(cell.0 as int, cell.1 as int),
        exists|n: (u32, u32)|
            old(maze).is_open(#[trigger] n.0 as int, n.1 as int) && dist1(cell, n),
    ensures
        final(maze).wf(),
        final(maze).spec_height() == old(maze).spec_height(),
        final(maze).spec_width() == old(maze).spec_width(),
        forall|a: int, b: int| old(maze).is_open(a, b) ==> final(maze).is_open(a, b),
        old(maze).open_count_spec() <= final(maze).open_count_spec() <= old(
            maze,
        ).open_count_spec() + 1,
        open_structure(*old(maze)) ==> open_structure(*final(maze)),
        rooted(*old(maze)) ==> rooted(*final(maze)),
        forall|a: int, b: int|
            final(maze).is_open(a, b) && !old(maze).is_open(a, b) ==> exists|n: (u32, u32)|
                {
                    &&& axis_dist(cell, n, 2)
                    &&& old(maze).is_open(#[trigger] n.0 as int, n.1 as int)
                    &&& (a, b) == (
                        wall_between(cell, n).0 as int,
                        wall_between(cell, n).1 as int,
                    )
                },
        (spec_deadend(*old(maze), cell) && has_loop_option(*old(maze), cell)) ==> exists|
            n: (u32, u32),
        |
            {
                &&& axis_dist(cell, n, 2)
                &&& old(maze).is_open(#[trigger] n.0 as int, n.1 as int)
                &&& !old(maze).is_open(
                    wall_between(cell, n).0 as int,
                    wall_between(cell, n).1 as int,
                )
                &&& (forall|a: int, b: int|
                    final(maze).is_open(a, b) <==> (old(maze).is_open(a, b) || (a, b) == (
                        wall_between(cell, n).0 as int,
                        wall_between(cell, n).1 as int,
                    )))
                &&& final(maze).open_count_spec() == old(maze).open_count_spec() + 1
            },
{
    let neighbouring_cells = get_cell_neighbours(cell, maze, 2);
    let neighbouring_path = get_cell_neighbours(cell, maze, 1);
    proof {
        let n0 = choose|n: (u32, u32)|
            old(maze).is_open(#[trigger] n.0 as int, n.1 as int) && dist1(cell, n);
        assert(axis_dist(cell, n0, 1));
        assert(neighbouring_path@.contains(n0));
    }
    let connected_nbr = neighbouring_path[0];
    if neighbouring_cells.len() == 0 {
        proof {
            if has_loop_option(*maze, cell) {
                let (n1, n2) = choose|n1: (u32, u32), n2: (u32, u32)|
                    {
                        &&& n1 != n2
                        &&& maze.is_open(#[trigger] n1.0 as int, n1.1 as int)
                        &&& maze.is_open(#[trigger] n2.0 as int, n2.1 as int)
                        &&& axis_dist(cell, n1, 2)
                        &&& axis_dist(cell, n2, 2)
                    };
                assert(neighbouring_cells@.contains(n1));
            }
        }
        return ;
    }
    proof {
        crate::dfs::lemma_dims_give_room(*maze);
        assert(maze.is_open(connected_nbr.0 as int, connected_nbr.1 as int));
    }
    let candidates = find_matching_cell_path(neighbouring_cells, connected_nbr);
    if candidates.len() == 0 {
        proof {
            if has_loop_option(*maze, cell) {
                let (n1, n2) = choose|n1: (u32, u32), n2: (u32, u32)|
                    {
                        &&& n1 != n2
                        &&& maze.is_open(#[trigger] n1.0 as int, n1.1 as int)
                        &&& maze.is_open(#[trigger] n2.0 as int, n2.1 as int)
                        &&& axis_dist(cell, n1, 2)
                        &&& axis_dist(cell, n2, 2)
                    };
                let i1 = choose|i: int|
                    0 <= i < neighbouring_cells@.len() && neighbouring_cells@[i] == n1;
                let i2 = choose|i: int|
                    0 <= i < neighbouring_cells@.len() && neighbouring_cells@[i] == n2;
                assert(i1 != i2);
                assert(false);
            }
        }
        return ;
    }
    let pick = rng.pick(candidates.len());
    let neighbour = candidates[pick];
    proof {
        assert(neighbouring_cells@.contains(neighbour));
        let i = choose|i: int|
            0 <= i < neighbouring_cells@.len() && neighbouring_cells@[i] == neighbour;
        assert(axis_dist(cell, neighbouring_cells@[i], 2));
    }
    let wall = find_wall_position(cell, neighbour);
    let ghost m_old = *maze;
    proof {
        crate::maze::lemma_coord_index_bound(
            wall.0 as int,
            wall.1 as int,
            maze.spec_width() as int,
            maze.spec_height() as int,
        );
        crate::maze::lemma_count_trues_update(maze.grid(), wall.0 + wall.1 * (maze.spec_width() as int));
    }
    maze.set_open(wall.0, wall.1);
    proof {
        if open_structure(m_old) {
            assert forall|c: (u32, u32)|
                maze.is_open(c.0 as int, c.1 as int) && !(c.0 % 2 == 1 && c.1 % 2
                    == 1) implies wall_joins_open_cells(*maze, c.0 as int, c.1 as int) by {
                if c != wall {
                    assert(m_old.is_open(c.0 as int, c.1 as int));
                    assert(wall_joins_open_cells(m_old, c.0 as int, c.1 as int));
                }
            }
        }
        if rooted(m_old) {
            assert forall|c: (u32, u32)| maze.is_open(c.0 as int, c.1 as int) implies connected(
                *maze,
                (1u32, 1u32),
                c,
            ) by {
                if c == wall {
                    lemma_connected_mono(m_old, *maze, (1u32, 1u32), cell);
                    lemma_connected_step(*maze, (1u32, 1u32), cell, wall);
                } else {
                    assert(m_old.is_open(c.0 as int, c.1 as int));
                    lemma_connected_mono(m_old, *maze, (1u32, 1u32), c);
                }
            }
        }
        assert forall|a: int, b: int|
            maze.is_open(a, b) && !m_old.is_open(a, b) implies exists|n: (u32, u32)|
                {
                    &&& axis_dist(cell, n, 2)
                    &&& m_old.is_open(#[trigger] n.0 as int, n.1 as int)
                    &&& (a, b) == (
                        wall_between(cell, n).0 as int,
                        wall_between(cell, n).1 as int,
                    )
                } by {
            assert((a, b) == (wall.0 as int, wall.1 as int));
            assert({
                &&& axis_dist(cell, neighbour, 2)
                &&& m_old.is_open(neighbour.0 as int, neighbour.1 as int)
                &&& (a, b) == (
                    wall_between(cell, neighbour).0 as int,
                    wall_between(cell, neighbour).1 as int,
                )
            });
        }
        if spec_deadend(m_old, cell) && has_loop_option(m_old, cell) {
            let p0 = choose|n: (u32, u32)|
                {
                    &&& m_old.is_open(#[trigger] n.0 as int, n.1 as int)
                    &&& dist1(cell, n)
                    &&& forall|n2: (u32, u32)|
                        m_old.is_open(#[trigger] n2.0 as int, n2.1 as int) && dist1(cell, n2)
                            ==> n2 == n
                };
            // The first listed path neighbour is the unique open one.
            assert(m_old.is_open(connected_nbr.0 as int, connected_nbr.1 as int) && axis_dist(
                cell,
                connected_nbr,
                1,
            ));
            assert(connected_nbr == p0);
            // At most one cell two steps away touches that neighbour.
            assert forall|na: (u32, u32), nb: (u32, u32)|
                axis_dist(cell, na, 2) && axis_dist(cell, nb, 2) && dist1(p0, na) && dist1(
                    p0,
                    nb,
                ) implies na == nb by {}
            // So the candidate list, with the matching entry removed,
            // holds no cell already joined to the dead end.
            let k = choose|k: int|
                {
                    &&& 0 <= k < neighbouring_cells@.len()
                    &&& candidates@ == neighbouring_cells@.remove(k)
                    &&& ((exists|j: int|
                        0 <= j < neighbouring_cells@.len() && dist1(
                            connected_nbr,
                            #[trigger] neighbouring_cells@[j],
                        )) ==> dist1(connected_nbr, neighbouring_cells@[k]))
                };
            assert forall|j: int| 0 <= j < candidates@.len() implies !dist1(
                p0,
                #[trigger] candidates@[j],
            ) by {
                if dist1(p0, candidates@[j]) {
                    if j < k {
                        assert(candidates@[j] == neighbouring_cells@[j]);
                        assert(dist1(connected_nbr, neighbouring_cells@[k]));
                        assert(candidates@[j] == neighbouring_cells@[k]);
                    } else {
                        assert(candidates@[j] == neighbouring_cells@[j + 1]);
                        assert(dist1(connected_nbr, neighbouring_cells@[k]));
                        assert(candidates@[j] == neighbouring_cells@[k]);
                    }
                }
            }
            assert(!dist1(p0, neighbour));
            // Hence the slot between the dead end and the chosen cell
            // was still closed, and exactly it was opened.
            assert(dist1(cell, wall) && dist1(wall, neighbour));
            if m_old.is_open(wall.0 as int, wall.1 as int) {
                assert(wall == p0);
            }
            assert(!m_old.is_open(wall.0 as int, wall.1 as int));
            assert((wall.0, wall.1) == wall_between(cell, neighbour));
            assert({
                &&& axis_dist(cell, neighbour, 2)
                &&& m_old.is_open(neighbour.0 as int, neighbour.1 as int)
                &&& !m_old.is_open(
                    wall_between(cell, neighbour).0 as int,
                    wall_between(cell, neighbour).1 as int,
                )
                &&& (forall|a: int, b: int|
                    maze.is_open(a, b) <==> (m_old.is_open(a, b) || (a, b) == (
                        wall_between(cell, neighbour).0 as int,
                        wall_between(cell, neighbour).1 as int,
                    )))
                &&& maze.open_count_spec() == m_old.open_count_spec() + 1
            });
        }
    }
}

/// How many dead ends are converted: one in twenty, rounded up.
pub open spec fn pick_count(n: int) -> int {
    if n == 0 {
        0
    } else {
        1 + (n - 1) / 20
    }
}

/// Draws the dead ends to convert: one in twenty, rounded up, chosen
/// uniformly at random without replacement, so a duplicate-free list
/// yields a duplicate-free selection.
pub fn pick_deadends(deadends: Vec<(u32, u32)>, rng: &mut RandomSource) -> (r: Vec<(u32, u32)>)
    ensures
        r@.len() == pick_count(deadends@.len() as int),
        forall|i: int| 0 <= i < r@.len() ==> deadends@.contains(#[trigger] r@[i]),
        deadends@.no_duplicates() ==> r@.no_duplicates(),
{
    let ghost orig = deadends@;
    let n = deadends.len();
    let change_count: usize = if n == 0 {
        0
    } else {
        1 + (n - 1) / 20
    };
    proof {
        assert(change_count <= n);
    }
    let mut remaining = deadends;
    let mut selected: Vec<(u32, u32)> = Vec::new();
    let mut k: usize = 0;
    while k < change_count
        invariant
            change_count <= n,
            k <= change_count,
            remaining@.len() == n - k,
            selected@.len() == k,
            forall|i: int| 0 <= i < remaining@.len() ==> orig.contains(#[trigger] remaining@[i]),
            forall|i: int| 0 <= i < selected@.len() ==> orig.contains(#[trigger] selected@[i]),
            orig.no_duplicates() ==> remaining@.no_duplicates(),
            orig.no_duplicates() ==> selected@.no_duplicates(),
            orig.no_duplicates() ==> forall|i: int|
                0 <= i < selected@.len() ==> !remaining@.contains(#[trigger] selected@[i]),
        decreases change_count - k,
    {
        let i = rng.pick(remaining.len());
        let ghost before = remaining@;
        let ghost selected_before = selected@;
        let end = remaining.remove(i);
        proof {
            assert(orig.contains(before[i as int]));
            assert forall|j: int| 0 <= j < remaining@.len() implies orig.contains(
                #[trigger] remaining@[j],
            ) by {
                if j < i {
                    assert(remaining@[j] == before[j]);
                } else {
                    assert(remaining@[j] == before[j + 1]);
                }
            }
        }
        selected.push(end);
        k = k + 1;
        proof {
            if orig.no_duplicates() {
                assert forall|a: int, b: int|
                    0 <= a < b < remaining@.len() implies remaining@[a] != remaining@[b] by {
                    let a0: int = if a < i {
                        a
                    } else {
                        a + 1
                    };
                    let b0: int = if b < i {
                        b
                    } else {
                        b + 1
                    };
                    assert(remaining@[a] == before[a0] && remaining@[b] == before[b0]);
                }
                assert forall|j: int|
                    0 <= j < remaining@.len() implies before.contains(#[trigger] remaining@[j]) by {
                    if j < i {
                        assert(remaining@[j] == before[j]);
                    } else {
                        assert(remaining@[j] == before[j + 1]);
                    }
                }
                // The drawn entry leaves the pool, so it can never be
                // drawn again.
                assert(!remaining@.contains(end)) by {
                    if remaining@.contains(end) {
                        let j = choose|j: int| 0 <= j < remaining@.len() && remaining@[j] == end;
                        if j < i {
                            assert(before[j] == before[i as int]);
                        } else {
                            assert(before[j + 1] == before[i as int]);
                        }
                    }
                }
                assert(!selected_before.contains(end)) by {
                    if selected_before.contains(end) {
                        let j = choose|j: int|
                            0 <= j < selected_before.len() && selected_before[j] == end;
                        assert(!before.contains(selected_before[j]));
                        assert(before[i as int] == end);
                    }
                }
                assert forall|a: int, b: int|
                    0 <= a < b < selected@.len() implies selected@[a] != selected@[b] by {
                    if b < selected@.len() - 1 {
                        assert(selected@[a] == selected_before[a] && selected@[b]
                            == selected_before[b]);
                    } else {
                        assert(selected@[a] == selected_before[a] && selected@[b] == end);
                        assert(selected_before.contains(selected_before[a]));
                    }
                }
            }
        }
    }
    selected
}

/// Applies the post-processor: finds every dead-end cell, selects one
/// in twenty of them (rounded up) at random, and opens one extra wall
/// slot next to each selected dead end, turning it into a loop.  The
/// open set only grows, by at most one in twenty of the dead-end
/// count, and the maze stays connected.  On a grid of at least five
/// in each direction whose cells are all open — which both generators
/// deliver — the very first converted dead end has a second open
/// neighbour cell, so any dead end at all forces strict growth.
pub fn generate(maze: Maze, rng: &mut RandomSource) -> (r: Maze)
    requires
        maze.wf(),
    ensures
        r.wf(),
        r.spec_height() == maze.spec_height(),
        r.spec_width() == maze.spec_width(),
        forall|a: int, b: int| maze.is_open(a, b) ==> r.is_open(a, b),
        maze.open_count_spec() <= r.open_count_spec(),
        r.open_count_spec() <= maze.open_count_spec() + pick_count(deadend_count(maze) as int),
        open_structure(maze) ==> open_structure(r),
        rooted(maze) ==> rooted(r),
        (maze.spec_height() >= 5 && maze.spec_width() >= 5 && (forall|c: (u32, u32)|
            valid_cell(maze.spec_height(), maze.spec_width(), c) ==> maze.is_open(
                c.0 as int,
                c.1 as int,
            )) && deadend_count(maze) >= 1) ==> r.open_count_spec() > maze.open_count_spec(),
{
    let mut m = maze;
    let ghost m0 = m;
    let h = m.height();
    let w = m.width();
    let mut deadends: Vec<(u32, u32)> = Vec::new();
    let mut y: u32 = 1;
    while y < h
        invariant
            m == m0,
            m.wf(),
            m.spec_height() == h,
            m.spec_width() == w,
            y % 2 == 1,
            1 <= y <= h + 1,
            forall|i: int|
                0 <= i < deadends@.len() ==> {
                    &&& valid_cell(h, w, #[trigger] deadends@[i])
                    &&& m.is_open(deadends@[i].0 as int, deadends@[i].1 as int)
                    &&& spec_deadend(m, deadends@[i])
                },
            forall|i: int, j: int|
                0 <= i < j < deadends@.len() ==> deadends@[i].1 * w + deadends@[i].0
                    < deadends@[j].1 * w + deadends@[j].0,
            forall|i: int|
                0 <= i < deadends@.len() ==> (#[trigger] deadends@[i]).1 * w + deadends@[i].0 < y
                    * w + 1,
            forall|c: (u32, u32)|
                valid_cell(h, w, c) && m.is_open(c.0 as int, c.1 as int) && spec_deadend(m, c)
                    && c.1 < y ==> deadends@.contains(c),
        decreases h - y,
    {
        let mut x: u32 = 1;
        while x < w
            invariant
                m == m0,
                m.wf(),
                m.spec_height() == h,
                m.spec_width() == w,
                y % 2 == 1,
                1 <= y < h,
                x % 2 == 1,
                1 <= x <= w + 1,
                forall|i: int|
                    0 <= i < deadends@.len() ==> {
                        &&& valid_cell(h, w, #[trigger] deadends@[i])
                        &&& m.is_open(deadends@[i].0 as int, deadends@[i].1 as int)
                        &&& spec_deadend(m, deadends@[i])
                    },
                forall|i: int, j: int|
                    0 <= i < j < deadends@.len() ==> deadends@[i].1 * w + deadends@[i].0
                        < deadends@[j].1 * w + deadends@[j].0,
                forall|i: int|
                    0 <= i < deadends@.len() ==> (#[trigger] deadends@[i]).1 * w + deadends@[i].0
                        < y * w + x,
                forall|c: (u32, u32)|
                    valid_cell(h, w, c) && m.is_open(c.0 as int, c.1 as int) && spec_deadend(m, c)
                        && (c.1 < y || (c.1 == y && c.0 < x)) ==> deadends@.contains(c),
            decreases w - x,
        {
            let ghost dead_old = deadends@;
            if m.is_open_at(x, y) && is_cell_deadend((x, y), &m) {
                deadends.push((x, y));
            }
            proof {
                assert forall|c: (u32, u32)|
                    valid_cell(h, w, c) && m.is_open(c.0 as int, c.1 as int) && spec_deadend(m, c)
                        && (c.1 < y || (c.1 == y && c.0 < x + 2)) implies deadends@.contains(
                    c,
                ) by {
                    if c.1 == y as u32 && c.0 >= x {
                        assert(c.0 == x);
                        assert(deadends@[deadends@.len() - 1] == c);
                    } else {
                        assert(dead_old.contains(c));
                        let i = choose|i: int| 0 <= i < dead_old.len() && dead_old[i] == c;
                        assert(deadends@[i] == c);
                    }
                }
            }
            x = x + 2;
        }
        proof {
            assert(y * w + x <= (y + 2) * w + 1) by (nonlinear_arith)
                requires
                    w >= 1,
                    y >= 0,
                    x <= w + 1,
            ;
            assert forall|c: (u32, u32)|
                valid_cell(h, w, c) && m.is_open(c.0 as int, c.1 as int) && spec_deadend(m, c)
                    && c.1 < y + 2 implies deadends@.contains(c) by {
                assert(c.1 < y || (c.1 == y && c.0 < x));
            }
        }
        y = y + 2;
    }
    proof {
        assert forall|a: int, b: int|
            0 <= a < b < deadends@.len() implies deadends@[a] != deadends@[b] by {}
        assert(deadends@.no_duplicates());
        assert forall|c: (u32, u32)| deadend_cells(m).contains(c) implies deadends@.contains(
            c,
        ) by {
            assert(c.1 < y);
        }
        assert(deadends@.to_set() =~= deadend_cells(m));
        deadends@.unique_seq_to_set();
        assert(deadends@.len() == deadend_count(m));
    }
    let ghost d = deadends@;
    let selected = pick_deadends(deadends, rng);
    proof {
        assert forall|i: int| 0 <= i < selected@.len() implies {
            &&& valid_cell(h, w, #[trigger] selected@[i])
            &&& m0.is_open(selected@[i].0 as int, selected@[i].1 as int)
            &&& spec_deadend(m0, selected@[i])
        } by {
            assert(d.contains(selected@[i]));
            let j = choose|j: int| 0 <= j < d.len() && d[j] == selected@[i];
            assert(valid_cell(h, w, d[j]));
        }
        assert(d.len() == deadend_count(m0));
    }
    let count = selected.len();
    let mut k: usize = 0;
    while k < count
        invariant
            count == selected@.len(),
            count == pick_count(d.len() as int),
            d.len() == deadend_count(m0),
            k <= count,
            m.wf(),
            m.spec_height() == h,
            m.spec_width() == w,
            m0.wf(),
            m0.spec_height() == h,
            m0.spec_width() == w,
            k == 0 ==> m == m0,
            forall|a: int, b: int| m0.is_open(a, b) ==> m.is_open(a, b),
            m0.open_count_spec() <= m.open_count_spec() <= m0.open_count_spec() + k,
            open_structure(m0) ==> open_structure(m),
            rooted(m0) ==> rooted(m),
            (h >= 5 && w >= 5 && (forall|c: (u32, u32)|
                valid_cell(h, w, c) ==> m0.is_open(c.0 as int, c.1 as int)) && k >= 1)
                ==> m.open_count_spec() > m0.open_count_spec(),
            forall|i: int|
                0 <= i < selected@.len() ==> {
                    &&& valid_cell(h, w, #[trigger] selected@[i])
                    &&& m0.is_open(selected@[i].0 as int, selected@[i].1 as int)
                    &&& spec_deadend(m0, selected@[i])
                },
        decreases count - k,
    {
        let cell = selected[k];
        proof {
            let n0 = choose|n: (u32, u32)|
                {
                    &&& m0.is_open(#[trigger] n.0 as int, n.1 as int)
                    &&& dist1(cell, n)
                    &&& forall|n2: (u32, u32)|
                        m0.is_open(#[trigger] n2.0 as int, n2.1 as int) && dist1(cell, n2) ==> n2
                            == n
                };
            assert(m.is_open(n0.0 as int, n0.1 as int) && dist1(cell, n0));
        }
        let ghost m_call = m;
        convert_to_path(cell, &mut m, rng);
        proof {
            // On an all-open grid of at least five each way, the first
            // dead end has a second neighbour cell, so its conversion
            // opens a slot.
            if h >= 5 && w >= 5 && (forall|c: (u32, u32)|
                valid_cell(h, w, c) ==> m0.is_open(c.0 as int, c.1 as int)) && k == 0 {
                let hn: (u32, u32) = if cell.0 + 2 < w {
                    (((cell.0 + 2) as u32, cell.1))
                } else {
                    (((cell.0 - 2) as u32, cell.1))
                };
                let vn: (u32, u32) = if cell.1 + 2 < h {
                    ((cell.0, (cell.1 + 2) as u32))
                } else {
                    ((cell.0, (cell.1 - 2) as u32))
                };
                assert(valid_cell(h, w, hn) && valid_cell(h, w, vn) && hn != vn);
                assert(m0.is_open(hn.0 as int, hn.1 as int));
                assert(m0.is_open(vn.0 as int, vn.1 as int));
                assert(axis_dist(cell, hn, 2) && axis_dist(cell, vn, 2));
                assert(has_loop_option(m0, cell));
                assert(spec_deadend(m_call, cell) && has_loop_option(m_call, cell));
                assert(m.open_count_spec() == m_call.open_count_spec() + 1);
            }
        }
        k = k + 1;
    }
    proof {
        if m0.spec_height() >= 5 && m0.spec_width() >= 5 && (forall|c: (u32, u32)|
            valid_cell(h, w, c) ==> m0.is_open(c.0 as int, c.1 as int)) && deadend_count(m0)
            >= 1 {
            assert(count >= 1);
        }
    }
    m
}

} // verus!
