//! The generator entry point: picks an algorithm, normalizes the
//! dimensions, and optionally post-processes the perfect maze into an
//! imperfect one.

use vstd::prelude::*;
use crate::maze::{spec_normalize_dim, Maze, MazeError};
use crate::paths::valid_cell;
use crate::rng::RandomSource;

verus! {

/// The choice of carving algorithm, with the requested dimensions.
pub enum Generator {
    DFS { height: u32, width: u32 },
    Kruskal { height: u32, width: u32 },
}

impl Generator {
    /// The requested height.
    pub open spec fn spec_height(self) -> u32 {
        match self {
            Generator::DFS { height, .. } => height,
            Generator::Kruskal { height, .. } => height,
        }
    }

    /// The requested width.
    pub open spec fn spec_width(self) -> u32 {
        match self {
            Generator::DFS { width, .. } => width,
            Generator::Kruskal { width, .. } => width,
        }
    }
}

/// Whether the requested dimensions admit a maze: each at least two,
/// and the normalized grid small enough for the machine.
pub open spec fn dims_ok(height: u32, width: u32) -> bool {
    &&& 2 <= height < u32::MAX
    &&& 2 <= width < u32::MAX
    &&& spec_normalize_dim(height) * spec_normalize_dim(width) <= u32::MAX
}

/// What either carving algorithm guarantees of its output for the
/// requested dimensions: the spanning-tree size (twice the cell count
/// minus one), every cell open, every open non-cell a wall slot
/// joining two open cells, and every open coordinate reachable from
/// the start cell.
pub open spec fn perfect_maze_of(m: Maze, height: u32, width: u32) -> bool {
    &&& m.wf()
    &&& m.spec_height() == spec_normalize_dim(height)
    &&& m.spec_width() == spec_normalize_dim(width)
    &&& m.open_count_spec() == 2 * crate::cell_count(m.spec_height(), m.spec_width()) - 1
    &&& forall|c: (u32, u32)|
        valid_cell(m.spec_height(), m.spec_width(), c) ==> m.is_open(c.0 as int, c.1 as int)
    &&& crate::dfs::open_structure(m)
    &&& crate::dfs::rooted(m)
}

/// Generates a maze with the chosen algorithm.  Returns
/// `InvalidDimension` exactly when the requested dimensions admit no
/// maze; otherwise the result is a perfect maze of the requested
/// size, optionally post-processed into an imperfect one (which only
/// adds loops and keeps the maze connected).
pub fn generate_maze(gen: Generator, imperfect: bool, rng: &mut RandomSource) -> (r: Result<
    Maze,
    MazeError,
>)
    ensures
        match r {
            Ok(m) => {
                &&& dims_ok(gen.spec_height(), gen.spec_width())
                &&& m.wf()
                &&& m.spec_height() == spec_normalize_dim(gen.spec_height())
                &&& m.spec_width() == spec_normalize_dim(gen.spec_width())
                &&& crate::dfs::rooted(m)
                &&& crate::dfs::open_structure(m)
                &&& forall|c: (u32, u32)|
                    valid_cell(m.spec_height(), m.spec_width(), c) ==> m.is_open(
                        c.0 as int,
                        c.1 as int,
                    )
                &&& !imperfect ==> perfect_maze_of(m, gen.spec_height(), gen.spec_width())
                &&& m.open_count_spec() >= 2 * crate::cell_count(m.spec_height(), m.spec_width())
                    - 1
            },
            Err(e) => e == MazeError::InvalidDimension && !dims_ok(
                gen.spec_height(),
                gen.spec_width(),
            ),
        },
{
    let (height, width) = match &gen {
        Generator::DFS { height, width } => (*height, *width),
        Generator::Kruskal { height, width } => (*height, *width),
    };
    if height < 2 || width < 2 || height == u32::MAX || width == u32::MAX {
        return Err(MazeError::InvalidDimension);
    }
    let nh = crate::maze::normalize_dim(height);
    let nw = crate::maze::normalize_dim(width);
    proof {
        assert((nh as int) * (nw as int) <= 0xFFFF_FFFF_FFFF_FFFFu64) by (nonlinear_arith)
            requires
                nh <= u32::MAX,
                nw <= u32::MAX,
        ;
    }
    if (nh as u64) * (nw as u64) > u32::MAX as u64 {
        proof {
            assert((nh as int) * (nw as int) > u32::MAX);
        }
        return Err(MazeError::InvalidDimension);
    }
    let mut maze = match &gen {
        Generator::DFS { .. } => crate::dfs::generate(height, width, rng),
        Generator::Kruskal { .. } => crate::kruskal::kruskal(height, width, rng),
    };
    if imperfect {
        maze = crate::imperfect::generate(maze, rng);
    }
    Ok(maze)
}

} // verus!
