//! The grid model: coordinates, cells, directions, and the set of open
//! coordinates that makes up a maze.

use vstd::prelude::*;

verus! {

/// A compass direction on the grid.  `North` is towards smaller y,
/// `South` towards larger y, `East` towards larger x, `West` towards
/// smaller x.
#[derive(Clone, Copy, PartialEq, Eq, Structural, Debug)]
pub enum Direction {
    North,
    East,
    South,
    West,
}

/// A cell coordinate: a position in the grid.  Cells proper sit at odd
/// (x, y); the type also carries wall-slot coordinates where a function
/// works on both.
#[derive(Clone, Copy, PartialEq, Eq, Structural, Debug)]
pub struct Cell {
    pub x: u32,
    pub y: u32,
}

impl Cell {
    pub fn new(x: u32, y: u32) -> (c: Cell)
        ensures
            c.x == x && c.y == y,
    {
        Cell { x, y }
    }
}

/// One grid position of a maze: either a wall or part of a passage.
#[derive(Clone, Copy, PartialEq, Eq, Structural, Debug)]
pub struct Node {
    wall: bool,
}

impl Node {
    pub fn new(wall: bool) -> (n: Node)
        ensures
            n.is_wall() == wall,
    {
        Node { wall }
    }

    pub closed spec fn spec_is_wall(&self) -> bool {
        self.wall
    }

    #[verifier::when_used_as_spec(spec_is_wall)]
    pub fn is_wall(&self) -> (r: bool)
        ensures
            r == self.spec_is_wall(),
    {
        self.wall
    }
}

/// What can go wrong when generating or solving a maze.
#[derive(Clone, Copy, PartialEq, Eq, Structural, Debug)]
pub enum MazeError {
    /// A dimension is too small to admit a single cell, or too large
    /// for the machine.
    InvalidDimension,
    /// A solver endpoint is not an open coordinate of the maze.
    InvalidEndpoint,
    /// The search exhausted its frontier without reaching the end.
    NoPathFound,
    /// The wall follower used up its step bound without reaching the
    /// end.
    UnboundedWalk,
}

/// A maze over a `height` x `width` grid of coordinates.  Height and
/// width are odd, so that cells (odd x, odd y) are separated by wall
/// slots and surrounded by a closed outer boundary.  `open` records,
/// for the coordinate (x, y) at index `x + y * width`, whether it is
/// currently open (passable).
pub struct Maze {
    height: u32,
    width: u32,
    open: Vec<bool>,
}

/// Coerces a dimension to the next odd value: even values are
/// incremented by one, odd values are kept.
pub open spec fn spec_normalize_dim(n: u32) -> u32
    recommends
        n < u32::MAX,
{
    if n % 2 == 0 {
        (n + 1) as u32
    } else {
        n
    }
}

/// Exec counterpart of [`spec_normalize_dim`].
pub fn normalize_dim(n: u32) -> (r: u32)
    requires
        n < u32::MAX,
    ensures
        r == spec_normalize_dim(n),
        r % 2 == 1,
        r >= n,
{
    if n % 2 == 0 {
        n + 1
    } else {
        n
    }
}

impl Maze {
    /// The grid height after normalization.
    pub closed spec fn spec_height(self) -> u32 {
        self.height
    }

    /// The grid width after normalization.
    pub closed spec fn spec_width(self) -> u32 {
        self.width
    }

    /// The openness of every coordinate, row-major.
    pub closed spec fn grid(self) -> Seq<bool> {
        self.open@
    }

    /// Structural invariant: odd dimensions of at least 3, a grid entry
    /// for every coordinate, and a total coordinate count that fits the
    /// machine.
    pub open spec fn wf(self) -> bool {
        &&& self.spec_height() % 2 == 1
        &&& self.spec_width() % 2 == 1
        &&& self.spec_height() >= 3
        &&& self.spec_width() >= 3
        &&& self.spec_height() * self.spec_width() <= u32::MAX
        &&& self.grid().len() == self.spec_height() * self.spec_width()
    }

    /// Whether (x, y) lies on the grid.
    pub open spec fn in_bounds(self, x: int, y: int) -> bool {
        0 <= x < self.spec_width() && 0 <= y < self.spec_height()
    }

    /// Whether the coordinate (x, y) is open (passable).  Anything off
    /// the grid is a wall.
    pub open spec fn is_open(self, x: int, y: int) -> bool {
        self.in_bounds(x, y) && self.grid()[x + y * self.spec_width()]
    }

    /// Whether (x, y) is a valid cell coordinate: odd on both axes and
    /// on the grid.
    pub open spec fn is_cell(self, x: int, y: int) -> bool {
        self.in_bounds(x, y) && x % 2 == 1 && y % 2 == 1
    }

    /// Creates the maze of a `height` x `width` grid (dimensions coerced
    /// to odd first) whose only open coordinate is the conventional
    /// start cell (1, 1).
    pub fn new(height: u32, width: u32) -> (m: Maze)
        requires
            2 <= height < u32::MAX,
            2 <= width < u32::MAX,
            spec_normalize_dim(height) * spec_normalize_dim(width) <= u32::MAX,
        ensures
            m.wf(),
            m.spec_height() == spec_normalize_dim(height),
            m.spec_width() == spec_normalize_dim(width),
            forall|x: int, y: int|
                m.is_open(x, y) <==> (x == 1 && y == 1),
            count_trues(m.grid()) == 1,
    {
        let height = normalize_dim(height);
        let width = normalize_dim(width);
        let total = height as usize * width as usize;
        let mut open: Vec<bool> = Vec::new();
        let mut i: usize = 0;
        while i < total
            invariant
                i <= total,
                open@.len() == i,
                forall|j: int| 0 <= j < i ==> !open@[j],
            decreases total - i,
        {
            open.push(false);
            i = i + 1;
        }
        let mut m = Maze { height, width, open };
        proof {
            assert(m.grid().len() == m.spec_height() * m.spec_width());
            assert forall|x: int, y: int| !m.is_open(x, y) by {
                if m.in_bounds(x, y) {
                    lemma_coord_index_bound(
                        x,
                        y,
                        m.spec_width() as int,
                        m.spec_height() as int,
                    );
                }
            }
        }
        let ghost m0 = m;
        m.set_open(1, 1);
        proof {
            lemma_count_trues_zero(m0.grid());
            lemma_coord_index_bound(1, 1, m0.spec_width() as int, m0.spec_height() as int);
            lemma_count_trues_update(m0.grid(), 1 + 1 * m0.spec_width());
        }
        m
    }

    /// Exec read of the grid height.
    pub fn height(&self) -> (r: u32)
        ensures
            r == self.spec_height(),
    {
        self.height
    }

    /// Exec read of the grid width.
    pub fn width(&self) -> (r: u32)
        ensures
            r == self.spec_width(),
    {
        self.width
    }

    /// The number of coordinates of the grid, open or not.
    pub fn coord_count(&self) -> (r: usize)
        requires
            self.wf(),
        ensures
            r == self.spec_height() * self.spec_width(),
    {
        self.open.len()
    }

    /// Whether the coordinate (x, y) is open.
    pub fn is_open_at(&self, x: u32, y: u32) -> (r: bool)
        requires
            self.wf(),
        ensures
            r == self.is_open(x as int, y as int),
    {
        if x < self.width && y < self.height {
            proof {
                lemma_coord_index_bound(x as int, y as int, self.spec_width() as int, self.spec_height() as int);
            }
            self.open[x as usize + y as usize * self.width as usize]
        } else {
            false
        }
    }

    /// Opens the coordinate (x, y).
    pub fn set_open(&mut self, x: u32, y: u32)
        requires
            old(self).wf(),
            old(self).in_bounds(x as int, y as int),
        ensures
            final(self).wf(),
            final(self).spec_height() == old(self).spec_height(),
            final(self).spec_width() == old(self).spec_width(),
            final(self).grid() == old(self).grid().update(x + y * old(self).spec_width(), true),
            forall|a: int, b: int|
                final(self).is_open(a, b) <==> (old(self).is_open(a, b) || (a == x && b == y)),
    {
        proof {
            lemma_coord_index_bound(x as int, y as int, self.spec_width() as int, self.spec_height() as int);
        }
        let idx = x as usize + y as usize * self.width as usize;
        self.open.set(idx, true);
        proof {
            let w = self.spec_width() as int;
            let h = self.spec_height() as int;
            assert forall|a: int, b: int|
                final(self).is_open(a, b) <==> (old(self).is_open(a, b) || (a == x && b
                    == y)) by {
                if 0 <= a < w && 0 <= b < h {
                    lemma_coord_index_bound(a, b, w, h);
                    if (a, b) != (x as int, y as int) {
                        lemma_coord_index_injective(a, b, x as int, y as int, w, h);
                    }
                }
            }
        }
    }

    /// Whether a step of two from `c` towards `d` stays strictly inside
    /// the closed outer boundary.
    pub open spec fn neighbour_in(self, c: Cell, d: Direction) -> bool {
        match d {
            Direction::South => c.y < self.spec_height() - 2,
            Direction::East => c.x < self.spec_width() - 2,
            Direction::North => c.y > 1,
            Direction::West => c.x > 1,
        }
    }

    /// The cell two steps from `c` towards `d`.
    pub open spec fn spec_step2(c: Cell, d: Direction) -> Cell {
        match d {
            Direction::South => Cell { x: c.x, y: (c.y + 2) as u32 },
            Direction::East => Cell { x: (c.x + 2) as u32, y: c.y },
            Direction::North => Cell { x: c.x, y: (c.y - 2) as u32 },
            Direction::West => Cell { x: (c.x - 2) as u32, y: c.y },
        }
    }

    /// The neighbour entry for one direction, as far as it is in range.
    pub open spec fn neighbour_entry(self, c: Cell, d: Direction) -> Seq<(Cell, Direction)> {
        if self.neighbour_in(c, d) {
            seq![(Self::spec_step2(c, d), d)]
        } else {
            Seq::empty()
        }
    }

    /// The axis-neighbour cells of `c` at distance two, south, east,
    /// north, west, omitting any that would leave the interior of the
    /// grid.  Pure coordinate arithmetic: openness plays no part.
    pub fn get_cell_neighbours(&self, cell: &Cell) -> (r: Vec<(Cell, Direction)>)
        requires
            self.wf(),
            self.in_bounds(cell.x as int, cell.y as int),
        ensures
            r@ == self.neighbour_entry(*cell, Direction::South) + self.neighbour_entry(
                *cell,
                Direction::East,
            ) + self.neighbour_entry(*cell, Direction::North) + self.neighbour_entry(
                *cell,
                Direction::West,
            ),
    {
        let mut neighbours: Vec<(Cell, Direction)> = Vec::new();
        if cell.y < self.height - 2 {
            neighbours.push((Cell { x: cell.x, y: cell.y + 2 }, Direction::South));
        }
        if cell.x < self.width - 2 {
            neighbours.push((Cell { x: cell.x + 2, y: cell.y }, Direction::East));
        }
        if cell.y > 1 {
            neighbours.push((Cell { x: cell.x, y: cell.y - 2 }, Direction::North));
        }
        if cell.x > 1 {
            neighbours.push((Cell { x: cell.x - 2, y: cell.y }, Direction::West));
        }
        proof {
            assert(neighbours@ =~= self.neighbour_entry(*cell, Direction::South)
                + self.neighbour_entry(*cell, Direction::East) + self.neighbour_entry(
                *cell,
                Direction::North,
            ) + self.neighbour_entry(*cell, Direction::West));
        }
        neighbours
    }

    /// The cell object at (x, y), if (x, y) lies on the grid.
    pub fn get_cell(&self, x: u32, y: u32) -> (r: Option<Cell>)
        ensures
            match r {
                Some(c) => self.in_bounds(x as int, y as int) && c.x == x && c.y == y,
                None => !self.in_bounds(x as int, y as int),
            },
    {
        if x < self.width && y < self.height {
            Some(Cell { x, y })
        } else {
            None
        }
    }
}

/// The number of `true` entries of a row-major openness grid.
pub open spec fn count_trues(s: Seq<bool>) -> nat
    decreases s.len(),
{
    if s.len() == 0 {
        0
    } else {
        count_trues(s.drop_last()) + if s.last() {
            1nat
        } else {
            0nat
        }
    }
}

/// A grid with no entry set has count zero.
pub proof fn lemma_count_trues_zero(s: Seq<bool>)
    requires
        forall|j: int| 0 <= j < s.len() ==> !s[j],
    ensures
        count_trues(s) == 0,
    decreases s.len(),
{
    if s.len() > 0 {
        lemma_count_trues_zero(s.drop_last());
    }
}

/// Counting one more prefix entry adds one exactly when that entry is set.
pub proof fn lemma_count_trues_take_step(s: Seq<bool>, i: int)
    requires
        0 <= i < s.len(),
    ensures
        count_trues(s.take(i + 1)) == count_trues(s.take(i)) + if s[i] {
            1int
        } else {
            0int
        },
{
    assert(s.take(i + 1).drop_last() =~= s.take(i));
    assert(s.take(i + 1).last() == s[i]);
}

/// The whole grid is its own full prefix.
pub proof fn lemma_count_trues_take_all(s: Seq<bool>)
    ensures
        count_trues(s.take(s.len() as int)) == count_trues(s),
{
    assert(s.take(s.len() as int) =~= s);
}

/// The count never exceeds the grid size.
pub proof fn lemma_count_trues_le(s: Seq<bool>)
    ensures
        count_trues(s) <= s.len(),
    decreases s.len(),
{
    if s.len() > 0 {
        lemma_count_trues_le(s.drop_last());
    }
}

/// Setting a cleared entry raises the count by one; setting a set entry
/// leaves it unchanged.
pub proof fn lemma_count_trues_update(s: Seq<bool>, i: int)
    requires
        0 <= i < s.len(),
    ensures
        count_trues(s.update(i, true)) == count_trues(s) + if s[i] {
            0int
        } else {
            1int
        },
    decreases s.len(),
{
    if i == s.len() - 1 {
        assert(s.update(i, true).drop_last() =~= s.drop_last());
    } else {
        assert(s.update(i, true).drop_last() =~= s.drop_last().update(i, true));
        lemma_count_trues_update(s.drop_last(), i);
    }
}

impl Maze {
    /// The number of open coordinates, as a mathematical value.
    pub open spec fn open_count_spec(self) -> nat {
        count_trues(self.grid())
    }

    /// Counts the open coordinates of the maze.
    pub fn open_count(&self) -> (r: usize)
        requires
            self.wf(),
        ensures
            r == self.open_count_spec(),
    {
        let total = self.open.len();
        let mut count: usize = 0;
        let mut i: usize = 0;
        while i < total
            invariant
                i <= total,
                total == self.grid().len(),
                count == count_trues(self.grid().take(i as int)),
                count <= i,
            decreases total - i,
        {
            proof {
                lemma_count_trues_take_step(self.grid(), i as int);
            }
            if self.open[i] {
                count = count + 1;
            }
            i = i + 1;
        }
        proof {
            lemma_count_trues_take_all(self.grid());
        }
        count
    }
}

/// Row-major coordinate indices stay within the grid.
pub proof fn lemma_coord_index_bound(x: int, y: int, w: int, h: int)
    requires
        0 <= x < w,
        0 <= y < h,
    ensures
        0 <= x + y * w < h * w,
{
    assert(x + y * w < h * w) by (nonlinear_arith)
        requires
            0 <= x < w,
            0 <= y < h,
    ;
}

/// Distinct coordinates have distinct row-major indices.
pub proof fn lemma_coord_index_injective(x1: int, y1: int, x2: int, y2: int, w: int, h: int)
    requires
        0 <= x1 < w,
        0 <= y1 < h,
        0 <= x2 < w,
        0 <= y2 < h,
        (x1, y1) != (x2, y2),
    ensures
        x1 + y1 * w != x2 + y2 * w,
{
    assert(x1 + y1 * w != x2 + y2 * w) by (nonlinear_arith)
        requires
            0 <= x1 < w,
            0 <= y1 < h,
            0 <= x2 < w,
            0 <= y2 < h,
            (x1, y1) != (x2, y2),
    ;
}

} // verus!
