//! The mathematical model of maze connectivity: walks over open
//! coordinates, the cell graph of the bare grid, and the size of the
//! cell lattice.

use vstd::prelude::*;
use crate::maze::{Direction, Maze};

verus! {

/// Two coordinates one step apart on one axis.
pub open spec fn dist1(a: (u32, u32), b: (u32, u32)) -> bool {
    ||| (a.0 == b.0 && (a.1 + 1 == b.1 || b.1 + 1 == a.1))
    ||| (a.1 == b.1 && (a.0 + 1 == b.0 || b.0 + 1 == a.0))
}

/// Two cell coordinates two steps apart on one axis.
pub open spec fn adj2(a: (u32, u32), b: (u32, u32)) -> bool {
    ||| (a.0 == b.0 && (a.1 + 2 == b.1 || b.1 + 2 == a.1))
    ||| (a.1 == b.1 && (a.0 + 2 == b.0 || b.0 + 2 == a.0))
}

/// A walk through open coordinates of `m`, each consecutive pair one
/// step apart.
pub open spec fn is_open_path(m: Maze, p: Seq<(u32, u32)>) -> bool {
    &&& p.len() >= 1
    &&& forall|i: int| 0 <= i < p.len() ==> m.is_open(#[trigger] p[i].0 as int, p[i].1 as int)
    &&& forall|i: int| 0 <= i < p.len() - 1 ==> dist1(#[trigger] p[i], p[i + 1])
}

/// Whether some walk through open coordinates leads from `a` to `b`.
pub open spec fn connected(m: Maze, a: (u32, u32), b: (u32, u32)) -> bool {
    exists|p: Seq<(u32, u32)>| is_open_path(m, p) && p.first() == a && p.last() == b
}

/// An open coordinate is connected to itself.
pub proof fn lemma_connected_refl(m: Maze, a: (u32, u32))
    requires
        m.is_open(a.0 as int, a.1 as int),
    ensures
        connected(m, a, a),
{
    let p = seq![a];
    assert(is_open_path(m, p));
    assert(p.first() == a && p.last() == a);
}

/// A connection extends by one open step.
pub proof fn lemma_connected_step(m: Maze, a: (u32, u32), b: (u32, u32), c: (u32, u32))
    requires
        connected(m, a, b),
        m.is_open(c.0 as int, c.1 as int),
        dist1(b, c),
    ensures
        connected(m, a, c),
{
    let p = choose|p: Seq<(u32, u32)>| is_open_path(m, p) && p.first() == a && p.last() == b;
    let q = p.push(c);
    assert forall|i: int| 0 <= i < q.len() - 1 implies dist1(#[trigger] q[i], q[i + 1]) by {
        if i < p.len() - 1 {
            assert(dist1(p[i], p[i + 1]));
        }
    }
    assert(is_open_path(m, q));
    assert(q.first() == a && q.last() == c);
}

/// Walks survive the opening of further coordinates.
pub proof fn lemma_connected_mono(m1: Maze, m2: Maze, a: (u32, u32), b: (u32, u32))
    requires
        connected(m1, a, b),
        forall|x: int, y: int| m1.is_open(x, y) ==> m2.is_open(x, y),
    ensures
        connected(m2, a, b),
{
    let p = choose|p: Seq<(u32, u32)>| is_open_path(m1, p) && p.first() == a && p.last() == b;
    assert(is_open_path(m2, p));
}

/// A connection read backwards is a connection.
pub proof fn lemma_connected_sym(m: Maze, a: (u32, u32), b: (u32, u32))
    requires
        connected(m, a, b),
    ensures
        connected(m, b, a),
{
    let p = choose|p: Seq<(u32, u32)>| is_open_path(m, p) && p.first() == a && p.last() == b;
    let q = p.reverse();
    assert forall|i: int| 0 <= i < q.len() - 1 implies dist1(#[trigger] q[i], q[i + 1]) by {
        let j = p.len() - 2 - i;
        assert(dist1(p[j], p[j + 1]));
    }
    assert(is_open_path(m, q));
    assert(q.first() == b && q.last() == a);
}

/// Connections compose.
pub proof fn lemma_connected_trans(m: Maze, a: (u32, u32), b: (u32, u32), c: (u32, u32))
    requires
        connected(m, a, b),
        connected(m, b, c),
    ensures
        connected(m, a, c),
{
    let p = choose|p: Seq<(u32, u32)>| is_open_path(m, p) && p.first() == a && p.last() == b;
    let q = choose|q: Seq<(u32, u32)>| is_open_path(m, q) && q.first() == b && q.last() == c;
    let r = p + q.drop_first();
    assert forall|i: int| 0 <= i < r.len() implies m.is_open(
        #[trigger] r[i].0 as int,
        r[i].1 as int,
    ) by {
        if i < p.len() {
            assert(m.is_open(p[i].0 as int, p[i].1 as int));
        } else {
            assert(r[i] == q[i - p.len() + 1]);
            assert(m.is_open(q[i - p.len() + 1].0 as int, q[i - p.len() + 1].1 as int));
        }
    }
    assert forall|i: int| 0 <= i < r.len() - 1 implies dist1(#[trigger] r[i], r[i + 1]) by {
        if i + 1 < p.len() {
            assert(dist1(p[i], p[i + 1]));
        } else if i + 1 == p.len() {
            if q.len() >= 2 {
                assert(r[i] == p[p.len() - 1] && r[i + 1] == q[1]);
                assert(dist1(q[0], q[1]));
            }
        } else {
            assert(r[i] == q[i - p.len() + 1] && r[i + 1] == q[i - p.len() + 2]);
            assert(dist1(q[i - p.len() + 1], q[i - p.len() + 2]));
        }
    }
    assert(r.len() >= 1);
    assert(is_open_path(m, r));
    assert(r.first() == a);
    assert(r.last() == c) by {
        if q.len() == 1 {
            assert(r.last() == p.last());
        } else {
            assert(r.last() == q.last());
        }
    }
}

/// A set that contains the first coordinate of a walk and is closed
/// under open steps contains its last.
pub proof fn lemma_open_path_closed_set(m: Maze, s: Set<(u32, u32)>, p: Seq<(u32, u32)>)
    requires
        is_open_path(m, p),
        s.contains(p.first()),
        forall|a: (u32, u32), b: (u32, u32)|
            s.contains(a) && m.is_open(b.0 as int, b.1 as int) && dist1(a, b) ==> s.contains(b),
    ensures
        s.contains(p.last()),
    decreases p.len(),
{
    if p.len() > 1 {
        let q = p.drop_first();
        assert(m.is_open(p[1].0 as int, p[1].1 as int));
        assert(dist1(p[0], p[1]));
        assert(s.contains(p[1]));
        assert forall|i: int| 0 <= i < q.len() implies m.is_open(
            #[trigger] q[i].0 as int,
            q[i].1 as int,
        ) by {
            assert(m.is_open(p[i + 1].0 as int, p[i + 1].1 as int));
        }
        assert forall|i: int| 0 <= i < q.len() - 1 implies dist1(#[trigger] q[i], q[i + 1]) by {
            assert(dist1(p[i + 1], p[i + 2]));
        }
        lemma_open_path_closed_set(m, s, q);
    }
}

/// The coordinate `k` steps from `pos` towards `d`, when that
/// coordinate is open; `None` where the step leaves the grid at its
/// low edge or runs into a wall.
pub open spec fn step_at(m: Maze, pos: (u32, u32), d: Direction, k: int) -> Option<(u32, u32)> {
    let t: (u32, u32) = match d {
        Direction::North => (pos.0, (pos.1 - k) as u32),
        Direction::East => (((pos.0 + k) as u32, pos.1)),
        Direction::South => ((pos.0, (pos.1 + k) as u32)),
        Direction::West => (((pos.0 - k) as u32, pos.1)),
    };
    let in_low = match d {
        Direction::North => pos.1 >= k,
        Direction::West => pos.0 >= k,
        _ => true,
    };
    if in_low && m.is_open(t.0 as int, t.1 as int) {
        Some(t)
    } else {
        None
    }
}

/// The entry a neighbour listing gains for one direction: one element
/// when the step lands on an open coordinate, none otherwise.
pub open spec fn step_entry(m: Maze, pos: (u32, u32), d: Direction, k: int) -> Seq<(u32, u32)> {
    match step_at(m, pos, d, k) {
        Some(t) => seq![t],
        None => Seq::empty(),
    }
}

/// An open coordinate that is not a cell is a wall slot joining the
/// two open cells on either side of it.
pub open spec fn wall_joins_open_cells(m: Maze, x: int, y: int) -> bool {
    if x % 2 == 0 && y % 2 == 1 {
        1 <= x && m.is_open(x - 1, y) && m.is_open(x + 1, y)
    } else if x % 2 == 1 && y % 2 == 0 {
        1 <= y && m.is_open(x, y - 1) && m.is_open(x, y + 1)
    } else {
        false
    }
}

/// A valid cell coordinate of a grid of the given odd dimensions.
pub open spec fn valid_cell(height: u32, width: u32, c: (u32, u32)) -> bool {
    c.0 % 2 == 1 && c.1 % 2 == 1 && c.0 < width && c.1 < height
}

/// A walk through valid cells of the bare grid, each consecutive pair
/// two steps apart; walls play no part.
pub open spec fn is_cell_path(height: u32, width: u32, p: Seq<(u32, u32)>) -> bool {
    &&& p.len() >= 1
    &&& forall|i: int| 0 <= i < p.len() ==> valid_cell(height, width, #[trigger] p[i])
    &&& forall|i: int| 0 <= i < p.len() - 1 ==> adj2(#[trigger] p[i], p[i + 1])
}

/// Every valid cell is reachable from (1, 1) within the bare grid.
pub proof fn lemma_grid_path_exists(height: u32, width: u32, c: (u32, u32))
    requires
        height % 2 == 1,
        width % 2 == 1,
        3 <= height,
        3 <= width,
        valid_cell(height, width, c),
    ensures
        exists|p: Seq<(u32, u32)>|
            is_cell_path(height, width, p) && p.first() == (1u32, 1u32) && p.last() == c,
    decreases c.0 + c.1,
{
    if c.1 > 1 {
        let prev = (c.0, (c.1 - 2) as u32);
        lemma_grid_path_exists(height, width, prev);
        let p = choose|p: Seq<(u32, u32)>|
            is_cell_path(height, width, p) && p.first() == (1u32, 1u32) && p.last() == prev;
        let q = p.push(c);
        assert forall|i: int| 0 <= i < q.len() - 1 implies adj2(#[trigger] q[i], q[i + 1]) by {
            if i < p.len() - 1 {
                assert(adj2(p[i], p[i + 1]));
            }
        }
        assert(is_cell_path(height, width, q) && q.first() == (1u32, 1u32) && q.last() == c);
    } else if c.0 > 1 {
        let prev = ((c.0 - 2) as u32, c.1);
        lemma_grid_path_exists(height, width, prev);
        let p = choose|p: Seq<(u32, u32)>|
            is_cell_path(height, width, p) && p.first() == (1u32, 1u32) && p.last() == prev;
        let q = p.push(c);
        assert forall|i: int| 0 <= i < q.len() - 1 implies adj2(#[trigger] q[i], q[i + 1]) by {
            if i < p.len() - 1 {
                assert(adj2(p[i], p[i + 1]));
            }
        }
        assert(is_cell_path(height, width, q) && q.first() == (1u32, 1u32) && q.last() == c);
    } else {
        let p = seq![(1u32, 1u32)];
        assert(is_cell_path(height, width, p) && p.first() == (1u32, 1u32) && p.last() == c);
    }
}

/// A set of cells that contains (1, 1) and is closed under grid
/// adjacency contains every valid cell.
pub proof fn lemma_closed_covers(height: u32, width: u32, s: Set<(u32, u32)>, c: (u32, u32))
    requires
        height % 2 == 1,
        width % 2 == 1,
        3 <= height,
        3 <= width,
        s.contains((1u32, 1u32)),
        forall|a: (u32, u32), b: (u32, u32)|
            s.contains(a) && valid_cell(height, width, b) && adj2(a, b) ==> s.contains(b),
        valid_cell(height, width, c),
    ensures
        s.contains(c),
{
    lemma_grid_path_exists(height, width, c);
    let p = choose|p: Seq<(u32, u32)>|
        is_cell_path(height, width, p) && p.first() == (1u32, 1u32) && p.last() == c;
    lemma_cell_path_closed_set(height, width, s, p);
}

/// A set that contains the first cell of a grid walk and is closed
/// under grid adjacency contains its last.
proof fn lemma_cell_path_closed_set(height: u32, width: u32, s: Set<(u32, u32)>, p: Seq<(u32, u32)>)
    requires
        is_cell_path(height, width, p),
        s.contains(p.first()),
        forall|a: (u32, u32), b: (u32, u32)|
            s.contains(a) && valid_cell(height, width, b) && adj2(a, b) ==> s.contains(b),
    ensures
        s.contains(p.last()),
    decreases p.len(),
{
    if p.len() > 1 {
        let q = p.drop_first();
        assert(valid_cell(height, width, p[1]));
        assert(adj2(p[0], p[1]));
        assert(s.contains(p[1]));
        assert forall|i: int| 0 <= i < q.len() implies valid_cell(
            height,
            width,
            #[trigger] q[i],
        ) by {
            assert(valid_cell(height, width, p[i + 1]));
        }
        assert forall|i: int| 0 <= i < q.len() - 1 implies adj2(#[trigger] q[i], q[i + 1]) by {
            assert(adj2(p[i + 1], p[i + 2]));
        }
        lemma_cell_path_closed_set(height, width, s, q);
    }
}

/// The set of all valid cells of a grid.
pub open spec fn cell_set(height: u32, width: u32) -> Set<(u32, u32)> {
    Set::new(|c: (u32, u32)| valid_cell(height, width, c))
}

/// The odd values below `2 * k` in one row.
spec fn row_set(y: u32, k: nat) -> Set<(u32, u32)> {
    Set::new(|c: (u32, u32)| c.1 == y && c.0 % 2 == 1 && c.0 < 2 * k)
}

proof fn lemma_row_set_len(y: u32, k: nat)
    requires
        2 * k <= u32::MAX,
    ensures
        row_set(y, k).finite(),
        row_set(y, k).len() == k,
    decreases k,
{
    if k == 0 {
        assert(row_set(y, 0) =~= Set::<(u32, u32)>::empty());
    } else {
        lemma_row_set_len(y, (k - 1) as nat);
        let last = ((2 * k - 1) as u32, y);
        assert(row_set(y, k) =~= row_set(y, (k - 1) as nat).insert(last));
    }
}

/// The cells with odd coordinates below `2 * k` and `2 * j`.
spec fn rect_set(k: nat, j: nat) -> Set<(u32, u32)> {
    Set::new(|c: (u32, u32)| c.0 % 2 == 1 && c.1 % 2 == 1 && c.0 < 2 * k && c.1 < 2 * j)
}

proof fn lemma_rect_set_len(k: nat, j: nat)
    requires
        2 * k <= u32::MAX,
        2 * j <= u32::MAX,
    ensures
        rect_set(k, j).finite(),
        rect_set(k, j).len() == k * j,
    decreases j,
{
    if j == 0 {
        assert(rect_set(k, 0) =~= Set::<(u32, u32)>::empty());
        assert(k * 0 == 0) by (nonlinear_arith);
    } else {
        lemma_rect_set_len(k, (j - 1) as nat);
        let y = (2 * j - 1) as u32;
        let row = row_set(y, k);
        lemma_row_set_len(y, k);
        assert(rect_set(k, j) =~= rect_set(k, (j - 1) as nat) + row);
        assert(rect_set(k, (j - 1) as nat).disjoint(row));
        vstd::set_lib::lemma_set_disjoint_lens::<(u32, u32)>(rect_set(k, (j - 1) as nat), row);
        assert(k * j == k * (j - 1) + k) by (nonlinear_arith);
    }
}

/// The number of valid cells: odd x below the width times odd y below
/// the height.
pub proof fn lemma_cell_set_len(height: u32, width: u32)
    requires
        height % 2 == 1,
        width % 2 == 1,
        3 <= height,
        3 <= width,
    ensures
        cell_set(height, width).finite(),
        cell_set(height, width).len() == crate::cell_count(height, width),
{
    let k = ((width - 1) / 2) as nat;
    let j = ((height - 1) / 2) as nat;
    lemma_rect_set_len(k, j);
    assert(2 * k == width - 1);
    assert(2 * j == height - 1);
    assert(cell_set(height, width) =~= rect_set(k, j));
}

} // verus!
