//! The Kruskal generator: all cells start as singleton groups of a
//! disjoint-set map; walls are drawn in random order and opened
//! exactly when they join two different groups, which yields a
//! spanning tree of the cell graph.

use vstd::prelude::*;
use crate::maze::Maze;
use crate::paths::{
    adj2, connected, dist1, lemma_closed_covers, lemma_connected_mono, lemma_connected_refl,
    lemma_connected_step, lemma_connected_sym, lemma_connected_trans, valid_cell,
    wall_joins_open_cells,
};
use crate::rng::RandomSource;
use crate::dfs::{open_structure, rooted, wall_between};

verus! {

/// A candidate wall: the two cells it separates and its own slot
/// coordinate.
pub struct Wall {
    pub cell_a: (u32, u32),
    pub cell_b: (u32, u32),
    pub x: u32,
    pub y: u32,
}

/// A canonical cell pair: `b` is the east or south neighbour of `a`.
/// Every edge of the cell graph is canonical exactly once.
pub open spec fn canonical_pair(height: u32, width: u32, a: (u32, u32), b: (u32, u32)) -> bool {
    &&& valid_cell(height, width, a)
    &&& valid_cell(height, width, b)
    &&& (b == (((a.0 + 2) as u32, a.1)) || b == ((a.0, (a.1 + 2) as u32)))
}

/// A well-formed candidate wall of the grid.
pub open spec fn wall_wf(height: u32, width: u32, wl: Wall) -> bool {
    &&& canonical_pair(height, width, wl.cell_a, wl.cell_b)
    &&& (wl.x, wl.y) == wall_between(wl.cell_a, wl.cell_b)
}

/// A strict rank on well-formed walls: cell order, east before south.
pub open spec fn wall_key(width: u32, wl: Wall) -> int {
    (wl.cell_a.1 * width + wl.cell_a.0) * 2 + if wl.cell_b.1 == wl.cell_a.1 {
        0int
    } else {
        1int
    }
}

/// Well-formed walls with the same slot are the same wall.
pub proof fn lemma_wall_slot_injective(height: u32, width: u32, wa: Wall, wb: Wall)
    requires
        wall_wf(height, width, wa),
        wall_wf(height, width, wb),
        (wa.x, wa.y) == (wb.x, wb.y),
    ensures
        wa.cell_a == wb.cell_a,
        wa.cell_b == wb.cell_b,
{
}

/// The disjoint-set slot of a valid cell: row-major over the cell
/// lattice.
pub open spec fn cell_index(width: u32, c: (u32, u32)) -> int {
    ((c.1 - 1) / 2) * ((width - 1) / 2) + (c.0 - 1) / 2
}

proof fn lemma_cell_index_bound(height: u32, width: u32, c: (u32, u32))
    requires
        height % 2 == 1,
        width % 2 == 1,
        3 <= height,
        3 <= width,
        valid_cell(height, width, c),
    ensures
        0 <= cell_index(width, c) < crate::cell_count(height, width),
{
    let row = (c.1 - 1) / 2;
    let col = (c.0 - 1) / 2;
    let rows = (height - 1) / 2;
    let cols = (width - 1) / 2;
    assert(row < rows && col < cols);
    assert(row * cols + col < cols * rows) by (nonlinear_arith)
        requires
            0 <= row < rows,
            0 <= col < cols,
    ;
}

proof fn lemma_cell_index_injective(height: u32, width: u32, a: (u32, u32), b: (u32, u32))
    requires
        height % 2 == 1,
        width % 2 == 1,
        3 <= height,
        3 <= width,
        valid_cell(height, width, a),
        valid_cell(height, width, b),
        cell_index(width, a) == cell_index(width, b),
    ensures
        a == b,
{
    let cols = (width - 1) / 2;
    assert(((a.1 - 1) / 2) == ((b.1 - 1) / 2) && ((a.0 - 1) / 2) == ((b.0 - 1) / 2))
        by (nonlinear_arith)
        requires
            0 <= (a.0 - 1) / 2 < cols,
            0 <= (b.0 - 1) / 2 < cols,
            ((a.1 - 1) / 2) * cols + (a.0 - 1) / 2 == ((b.1 - 1) / 2) * cols + (b.0 - 1) / 2,
            cols >= 1,
    ;
}

proof fn lemma_cell_index_surjective(height: u32, width: u32, i: int)
    requires
        height % 2 == 1,
        width % 2 == 1,
        3 <= height,
        3 <= width,
        0 <= i < crate::cell_count(height, width),
    ensures
        exists|c: (u32, u32)|
            valid_cell(height, width, c) && #[trigger] cell_index(width, c) == i,
{
    let cols = ((width - 1) / 2) as int;
    let rows = ((height - 1) / 2) as int;
    vstd::arithmetic::div_mod::lemma_fundamental_div_mod(i, cols);
    assert(0 <= i % cols < cols) by {
        vstd::arithmetic::div_mod::lemma_mod_bound(i, cols);
    }
    assert(0 <= i / cols < rows) by (nonlinear_arith)
        requires
            0 <= i < cols * rows,
            cols >= 1,
            i == cols * (i / cols) + i % cols,
            0 <= i % cols < cols,
    ;
    let c = ((2 * (i % cols) + 1) as u32, (2 * (i / cols) + 1) as u32);
    assert(valid_cell(height, width, c));
    assert(cell_index(width, c) == (i / cols) * cols + i % cols);
    assert((i / cols) * cols + i % cols == i) by (nonlinear_arith)
        requires
            i == cols * (i / cols) + i % cols,
    ;
}

/// The disjoint-set slot of `c`, as an index.
fn ci(height: u32, width: u32, c: (u32, u32)) -> (r: usize)
    requires
        height % 2 == 1,
        width % 2 == 1,
        3 <= height,
        3 <= width,
        height * width <= u32::MAX,
        valid_cell(height, width, c),
    ensures
        r == cell_index(width, c),
        r < crate::cell_count(height, width),
{
    proof {
        lemma_cell_index_bound(height, width, c);
        crate::dfs::lemma_v_target_fits(height, width);
        assert(((c.1 - 1) / 2) * ((width - 1) / 2) <= ((height - 1) / 2) * ((width - 1) / 2))
            by (nonlinear_arith)
            requires
                0 <= (c.1 - 1) / 2 <= (height - 1) / 2,
                0 <= (width - 1) / 2,
        ;
    }
    let row = (c.1 - 1) / 2;
    let col = (c.0 - 1) / 2;
    let cols = (width - 1) / 2;
    (row as usize) * (cols as usize) + (col as usize)
}

/// Moves every cell of group `set_b` into group `set_a`.
pub fn join_cell_sets(sets: &mut Vec<u32>, set_a: u32, set_b: u32)
    ensures
        final(sets)@.len() == old(sets)@.len(),
        forall|i: int|
            0 <= i < old(sets)@.len() ==> final(sets)@[i] == (if old(sets)@[i] == set_b {
                set_a
            } else {
                old(sets)@[i]
            }),
{
    let n = sets.len();
    let mut i: usize = 0;
    while i < n
        invariant
            n == sets@.len(),
            n == old(sets)@.len(),
            i <= n,
            forall|j: int|
                0 <= j < i ==> sets@[j] == (if old(sets)@[j] == set_b {
                    set_a
                } else {
                    old(sets)@[j]
                }),
            forall|j: int| i <= j < n ==> sets@[j] == old(sets)@[j],
        decreases n - i,
    {
        if sets[i] == set_b {
            sets.set(i, set_a);
        }
        i = i + 1;
    }
}

/// Builds the list of every wall that separates two valid cells, each
/// exactly once, in canonical order.
pub fn create_wall_list(height: u32, width: u32) -> (walls: Vec<Wall>)
    requires
        height % 2 == 1,
        width % 2 == 1,
        3 <= height,
        3 <= width,
        height * width <= u32::MAX,
    ensures
        forall|k: int| 0 <= k < walls@.len() ==> wall_wf(height, width, #[trigger] walls@[k]),
        forall|k1: int, k2: int|
            0 <= k1 < k2 < walls@.len() ==> wall_key(width, walls@[k1]) < wall_key(
                width,
                walls@[k2],
            ),
        forall|a: (u32, u32), b: (u32, u32)|
            canonical_pair(height, width, a, b) ==> exists|k: int|
                0 <= k < walls@.len() && #[trigger] walls@[k].cell_a == a && walls@[k].cell_b == b,
{
    proof {
        assert(3 * width <= height * width) by (nonlinear_arith)
            requires
                height >= 3,
                width >= 0,
        ;
        assert(3 * height <= height * width) by (nonlinear_arith)
            requires
                width >= 3,
                height >= 0,
        ;
    }
    let mut walls: Vec<Wall> = Vec::new();
    let mut y: u32 = 1;
    while y < height
        invariant
            height % 2 == 1,
            width % 2 == 1,
            3 <= height,
            3 <= width,
            width + 2 <= u32::MAX,
            height + 2 <= u32::MAX,
            y % 2 == 1,
            1 <= y <= height + 1,
            forall|k: int| 0 <= k < walls@.len() ==> wall_wf(height, width, #[trigger] walls@[k]),
            forall|k1: int, k2: int|
                0 <= k1 < k2 < walls@.len() ==> wall_key(width, walls@[k1]) < wall_key(
                    width,
                    walls@[k2],
                ),
            forall|k: int|
                0 <= k < walls@.len() ==> wall_key(width, #[trigger] walls@[k]) < 2 * (y * width),
            forall|a: (u32, u32), b: (u32, u32)|
                canonical_pair(height, width, a, b) && a.1 < y ==> exists|k: int|
                    0 <= k < walls@.len() && #[trigger] walls@[k].cell_a == a && walls@[k].cell_b
                        == b,
        decreases height - y,
    {
        let mut x: u32 = 1;
        while x < width
            invariant
                height % 2 == 1,
                width % 2 == 1,
                3 <= height,
                3 <= width,
                width + 2 <= u32::MAX,
                height + 2 <= u32::MAX,
                y % 2 == 1,
                1 <= y < height,
                x % 2 == 1,
                1 <= x <= width + 1,
                forall|k: int|
                    0 <= k < walls@.len() ==> wall_wf(height, width, #[trigger] walls@[k]),
                forall|k1: int, k2: int|
                    0 <= k1 < k2 < walls@.len() ==> wall_key(width, walls@[k1]) < wall_key(
                        width,
                        walls@[k2],
                    ),
                forall|k: int|
                    0 <= k < walls@.len() ==> wall_key(width, #[trigger] walls@[k]) < 2 * (y * width
                        + x),
                forall|a: (u32, u32), b: (u32, u32)|
                    canonical_pair(height, width, a, b) && (a.1 < y || (a.1 == y && a.0 < x))
                        ==> exists|k: int|
                        0 <= k < walls@.len() && #[trigger] walls@[k].cell_a == a
                            && walls@[k].cell_b == b,
            decreases width - x,
        {
            let ghost pre_east = walls@;
            if x + 2 < width {
                walls.push(Wall { cell_a: (x, y), cell_b: (x + 2, y), x: x + 1, y });
            }
            let ghost pre_south = walls@;
            if y + 2 < height {
                walls.push(Wall { cell_a: (x, y), cell_b: (x, y + 2), x, y: y + 1 });
            }
            proof {
                assert forall|a: (u32, u32), b: (u32, u32)|
                    canonical_pair(height, width, a, b) && (a.1 < y || (a.1 == y && a.0 < x
                        + 2)) implies exists|k: int|
                    0 <= k < walls@.len() && #[trigger] walls@[k].cell_a == a && walls@[k].cell_b
                        == b by {
                    if a == (x, y) {
                        if b == ((x + 2) as u32, y) {
                            assert(walls@[pre_east.len() as int].cell_a == a && walls@[pre_east.len() as int].cell_b == b);
                        } else {
                            assert(walls@[pre_south.len() as int].cell_a == a && walls@[pre_south.len() as int].cell_b == b);
                        }
                    } else {
                        let k = choose|k: int|
                            0 <= k < pre_east.len() && #[trigger] pre_east[k].cell_a == a
                                && pre_east[k].cell_b == b;
                        assert(walls@[k].cell_a == a && walls@[k].cell_b == b);
                    }
                }
            }
            x = x + 2;
        }
        proof {
            assert(2 * (y * width + width) <= 2 * ((y + 2) * width)) by (nonlinear_arith)
                requires
                    width >= 3,
                    y >= 0,
            ;
            assert forall|a: (u32, u32), b: (u32, u32)|
                canonical_pair(height, width, a, b) && a.1 < y + 2 implies exists|k: int|
                0 <= k < walls@.len() && #[trigger] walls@[k].cell_a == a && walls@[k].cell_b
                    == b by {
                assert(a.1 < y || (a.1 == y && a.0 < x));
            }
        }
        y = y + 2;
    }
    proof {
        assert forall|a: (u32, u32), b: (u32, u32)|
            canonical_pair(height, width, a, b) implies exists|k: int|
            0 <= k < walls@.len() && #[trigger] walls@[k].cell_a == a && walls@[k].cell_b == b by {
            assert(a.1 < y);
        }
    }
    walls
}

/// Only cells are open: the lex-progress picture of the seeding loop.
spec fn seeded_up_to(m: Maze, x: u32, y: u32) -> bool {
    forall|a: int, b: int|
        m.is_open(a, b) <==> ((a == 1 && b == 1) || (a % 2 == 1 && b % 2 == 1 && m.in_bounds(a, b)
            && (b < y || (b == y && a < x))))
}

/// Carves a perfect maze the Kruskal way: every cell starts open in a
/// singleton group; walls leave a randomly ordered candidate list one
/// by one and are opened exactly when their two cells lie in different
/// groups, which are then merged.  When the list is exhausted the
/// groups have merged into one, so exactly one spanning tree of wall
/// slots was opened: the maze has twice the cell count minus one open
/// coordinates and every open coordinate is reachable from the start.
#[verifier::rlimit(100)]
pub fn kruskal(height: u32, width: u32, rng: &mut RandomSource) -> (r: Maze)
    requires
        2 <= height < u32::MAX,
        2 <= width < u32::MAX,
        crate::maze::spec_normalize_dim(height) * crate::maze::spec_normalize_dim(width)
            <= u32::MAX,
    ensures
        r.wf(),
        r.spec_height() == crate::maze::spec_normalize_dim(height),
        r.spec_width() == crate::maze::spec_normalize_dim(width),
        r.open_count_spec() == 2 * crate::cell_count(r.spec_height(), r.spec_width()) - 1,
        forall|c: (u32, u32)|
            valid_cell(r.spec_height(), r.spec_width(), c) ==> r.is_open(c.0 as int, c.1 as int),
        open_structure(r),
        rooted(r),
{
    let mut m = Maze::new(height, width);
    let h = m.height();
    let w = m.width();
    proof {
        crate::dfs::lemma_v_target_fits(h, w);
    }
    let v_target: u32 = ((w - 1) / 2) * ((h - 1) / 2);
    let cols: u32 = (w - 1) / 2;

    // Seed: open every cell and give it its own singleton group.
    let mut ids: Vec<u32> = Vec::new();
    let mut y: u32 = 1;
    proof {
        assert(((y - 1) / 2) * cols == 0) by (nonlinear_arith)
            requires
                y == 1,
        ;
    }
    while y < h
        invariant
            m.wf(),
            m.spec_height() == h,
            m.spec_width() == w,
            h == crate::maze::spec_normalize_dim(height),
            w == crate::maze::spec_normalize_dim(width),
            v_target == crate::cell_count(h, w),
            cols == (w - 1) / 2,
            y % 2 == 1,
            1 <= y <= h + 1,
            y <= h + 1,
            ids@.len() == ((y - 1) / 2) * cols,
            ids@.len() <= v_target,
            forall|i: int| 0 <= i < ids@.len() ==> ids@[i] == i,
            seeded_up_to(m, 1, y),
            m.open_count_spec() == if ids@.len() == 0 {
                1int
            } else {
                ids@.len() as int
            },
        decreases h - y,
    {
        let mut x: u32 = 1;
        while x < w
            invariant
                m.wf(),
                m.spec_height() == h,
                m.spec_width() == w,
                v_target == crate::cell_count(h, w),
                cols == (w - 1) / 2,
                y % 2 == 1,
                1 <= y < h,
                x % 2 == 1,
                1 <= x <= w + 1,
                ids@.len() == ((y - 1) / 2) * cols + (x - 1) / 2,
                ids@.len() <= v_target,
                forall|i: int| 0 <= i < ids@.len() ==> ids@[i] == i,
                seeded_up_to(m, x, y),
                m.open_count_spec() == if ids@.len() == 0 {
                    1int
                } else {
                    ids@.len() as int
                },
            decreases w - x,
        {
            proof {
                lemma_cell_index_bound(h, w, (x, y));
                assert(cell_index(w, (x, y)) == ids@.len());
                assert(valid_cell(h, w, (1u32, 1u32)));
                assert(cell_index(w, (1u32, 1u32)) == 0);
                if !(x == 1 && y == 1) && ids@.len() == 0 {
                    lemma_cell_index_injective(h, w, (x, y), (1u32, 1u32));
                    assert(false);
                }
                crate::maze::lemma_coord_index_bound(x as int, y as int, w as int, h as int);
                crate::maze::lemma_count_trues_update(m.grid(), x + y * (w as int));
            }
            let ghost m_old = m;
            let next_id = ids.len() as u32;
            m.set_open(x, y);
            ids.push(next_id);
            proof {
                assert(m.grid() == m_old.grid().update(x + y * (w as int), true));
                assert(m_old.is_open(x as int, y as int) <==> (x == 1 && y == 1));
                assert(m.open_count_spec() == m_old.open_count_spec() + if x == 1 && y == 1 {
                    0int
                } else {
                    1int
                });
                assert(seeded_up_to(m, (x + 2) as u32, y));
                assert(((y - 1) / 2) * cols + (x + 1) / 2 == ids@.len());
            }
            x = x + 2;
        }
        proof {
            assert(((y + 1) / 2) * cols == ((y - 1) / 2) * cols + cols) by (nonlinear_arith)
                requires
                    y % 2 == 1,
                    y >= 1,
            ;
            assert(seeded_up_to(m, 1, (y + 2) as u32));
        }
        y = y + 2;
    }
    proof {
        assert(ids@.len() == v_target) by {
            assert(((h - 1) / 2) * cols == cols * ((h - 1) / 2)) by (nonlinear_arith);
        }
        assert(ids@.no_duplicates());
        ids@.unique_seq_to_set();
        assert forall|c: (u32, u32)| valid_cell(h, w, c) implies m.is_open(
            c.0 as int,
            c.1 as int,
        ) by {
            assert(c.1 < y);
        }
        assert(open_structure(m));
    }

    let mut walls = create_wall_list(h, w);
    proof {
        // Distinct ranks give distinct slots.
        assert forall|k1: int, k2: int|
            0 <= k1 < k2 < walls@.len() implies (walls@[k1].x, walls@[k1].y) != (
            walls@[k2].x,
            walls@[k2].y,
        ) by {
            if (walls@[k1].x, walls@[k1].y) == (walls@[k2].x, walls@[k2].y) {
                lemma_wall_slot_injective(h, w, walls@[k1], walls@[k2]);
            }
        }
        // Identity groups connect a cell only to itself.
        assert forall|a: (u32, u32), b: (u32, u32)|
            valid_cell(h, w, a) && valid_cell(h, w, b) && ids@[cell_index(w, a)] == ids@[cell_index(
            w,
            b,
        )] implies connected(m, a, b) by {
            lemma_cell_index_bound(h, w, a);
            lemma_cell_index_bound(h, w, b);
            lemma_cell_index_injective(h, w, a, b);
            lemma_connected_refl(m, a);
        }
    }

    // Merge: draw walls in random order; open those that join two
    // groups.
    while walls.len() > 0
        invariant
            m.wf(),
            m.spec_height() == h,
            m.spec_width() == w,
            h == crate::maze::spec_normalize_dim(height),
            w == crate::maze::spec_normalize_dim(width),
            v_target == crate::cell_count(h, w),
            1 <= v_target,
            ids@.len() == v_target,
            forall|c: (u32, u32)|
                valid_cell(h, w, c) ==> m.is_open(c.0 as int, c.1 as int),
            open_structure(m),
            m.open_count_spec() == 2 * v_target - ids@.to_set().len(),
            forall|k: int| 0 <= k < walls@.len() ==> wall_wf(h, w, #[trigger] walls@[k]),
            forall|k: int|
                0 <= k < walls@.len() ==> !m.is_open(
                    #[trigger] walls@[k].x as int,
                    walls@[k].y as int,
                ),
            forall|k1: int, k2: int|
                0 <= k1 < k2 < walls@.len() ==> (walls@[k1].x, walls@[k1].y) != (
                    walls@[k2].x,
                    walls@[k2].y,
                ),
            forall|a: (u32, u32), b: (u32, u32)|
                #[trigger] canonical_pair(h, w, a, b) ==> (exists|j: int|
                    0 <= j < walls@.len() && #[trigger] walls@[j].cell_a == a && walls@[j].cell_b
                        == b) || ids@[cell_index(w, a)] == ids@[cell_index(w, b)],
            forall|a: (u32, u32), b: (u32, u32)|
                valid_cell(h, w, a) && valid_cell(h, w, b) && #[trigger] ids@[cell_index(w, a)]
                    == #[trigger] ids@[cell_index(w, b)] ==> connected(m, a, b),
        decreases walls@.len(),
    {
        let k = rng.pick(walls.len());
        let ghost old_walls = walls@;
        let wl = walls.remove(k);
        let ghost removed = old_walls[k as int];
        proof {
            lemma_cell_index_bound(h, w, wl.cell_a);
            lemma_cell_index_bound(h, w, wl.cell_b);
        }
        let ai = ci(h, w, wl.cell_a);
        let bi = ci(h, w, wl.cell_b);
        let a_id = ids[ai];
        let b_id = ids[bi];
        if a_id != b_id {
            let ghost old_ids = ids@;
            let ghost m_old = m;
            join_cell_sets(&mut ids, a_id, b_id);
            proof {
                crate::maze::lemma_coord_index_bound(wl.x as int, wl.y as int, w as int, h as int);
                crate::maze::lemma_count_trues_update(m.grid(), wl.x + wl.y * (w as int));
            }
            m.set_open(wl.x, wl.y);
            proof {
                // The group set loses exactly the absorbed id.
                assert forall|v: u32| #[trigger] ids@.to_set().contains(v) implies old_ids.to_set()
                    .remove(b_id).contains(v) by {
                    let i = choose|i: int| 0 <= i < ids@.len() && ids@[i] == v;
                    if old_ids[i] == b_id {
                        assert(old_ids[ai as int] == v);
                    } else {
                        assert(old_ids[i] == v);
                    }
                }
                assert forall|v: u32| old_ids.to_set().remove(b_id).contains(v) implies ids@.to_set(
                ).contains(v) by {
                    let i = choose|i: int| 0 <= i < old_ids.len() && old_ids[i] == v;
                    assert(ids@[i] == v);
                }
                assert(ids@.to_set() =~= old_ids.to_set().remove(b_id));
                assert(old_ids.to_set().contains(b_id)) by {
                    assert(old_ids[bi as int] == b_id);
                }
                vstd::seq_lib::seq_to_set_is_finite::<u32>(old_ids);
                assert(old_ids.to_set().remove(b_id).len() == old_ids.to_set().len() - 1);

                // Freshly joined groups are connected through the new
                // slot.
                let slot = (wl.x, wl.y);
                assert(dist1(wl.cell_a, slot) && dist1(slot, wl.cell_b));
                assert forall|a: (u32, u32), b: (u32, u32)|
                    valid_cell(h, w, a) && valid_cell(h, w, b) && #[trigger] ids@[cell_index(w, a)]
                        == #[trigger] ids@[cell_index(w, b)] implies connected(m, a, b) by {
                    lemma_cell_index_bound(h, w, a);
                    lemma_cell_index_bound(h, w, b);
                    let va = old_ids[cell_index(w, a)];
                    let vb = old_ids[cell_index(w, b)];
                    if va == vb {
                        assert(connected(m_old, a, b));
                        lemma_connected_mono(m_old, m, a, b);
                    } else {
                        assert(old_ids[cell_index(w, wl.cell_a)] == a_id);
                        assert(old_ids[cell_index(w, wl.cell_b)] == b_id);
                        if va == a_id && vb == b_id {
                            assert(connected(m_old, a, wl.cell_a));
                            lemma_connected_mono(m_old, m, a, wl.cell_a);
                            lemma_connected_step(m, a, wl.cell_a, slot);
                            lemma_connected_step(m, a, slot, wl.cell_b);
                            assert(connected(m_old, b, wl.cell_b));
                            lemma_connected_mono(m_old, m, b, wl.cell_b);
                            lemma_connected_sym(m, b, wl.cell_b);
                            lemma_connected_trans(m, a, wl.cell_b, b);
                        } else {
                            assert(va == b_id && vb == a_id);
                            assert(connected(m_old, a, wl.cell_b));
                            lemma_connected_mono(m_old, m, a, wl.cell_b);
                            lemma_connected_step(m, a, wl.cell_b, slot);
                            lemma_connected_step(m, a, slot, wl.cell_a);
                            assert(connected(m_old, b, wl.cell_a));
                            lemma_connected_mono(m_old, m, b, wl.cell_a);
                            lemma_connected_sym(m, b, wl.cell_a);
                            lemma_connected_trans(m, a, wl.cell_a, b);
                        }
                    }
                }

                // Processed pairs stay grouped; pending pairs keep
                // their wall.
                assert forall|a: (u32, u32), b: (u32, u32)| #[trigger]
                    canonical_pair(h, w, a, b) implies (exists|j: int|
                    0 <= j < walls@.len() && #[trigger] walls@[j].cell_a == a && walls@[j].cell_b
                        == b) || ids@[cell_index(w, a)] == ids@[cell_index(w, b)] by {
                    lemma_cell_index_bound(h, w, a);
                    lemma_cell_index_bound(h, w, b);
                    if a == removed.cell_a && b == removed.cell_b {
                        assert(ids@[cell_index(w, a)] == a_id);
                        assert(ids@[cell_index(w, b)] == a_id);
                    } else if old_ids[cell_index(w, a)] == old_ids[cell_index(w, b)] {
                    } else {
                        let j = choose|j: int|
                            0 <= j < old_walls.len() && #[trigger] old_walls[j].cell_a == a
                                && old_walls[j].cell_b == b;
                        if j < k as int {
                            assert(walls@[j].cell_a == a && walls@[j].cell_b == b);
                        } else {
                            assert(walls@[j - 1].cell_a == a && walls@[j - 1].cell_b == b);
                        }
                    }
                }

                // Structure: the new slot joins its two open cells.
                assert forall|c: (u32, u32)|
                    m.is_open(c.0 as int, c.1 as int) && !(c.0 % 2 == 1 && c.1 % 2
                        == 1) implies wall_joins_open_cells(m, c.0 as int, c.1 as int) by {
                    if c != slot {
                        assert(m_old.is_open(c.0 as int, c.1 as int));
                        assert(wall_joins_open_cells(m_old, c.0 as int, c.1 as int));
                    }
                }
            }
        } else {
            proof {
                assert forall|a: (u32, u32), b: (u32, u32)| #[trigger]
                    canonical_pair(h, w, a, b) implies (exists|j: int|
                    0 <= j < walls@.len() && #[trigger] walls@[j].cell_a == a && walls@[j].cell_b
                        == b) || ids@[cell_index(w, a)] == ids@[cell_index(w, b)] by {
                    lemma_cell_index_bound(h, w, a);
                    lemma_cell_index_bound(h, w, b);
                    if a == removed.cell_a && b == removed.cell_b {
                        assert(ids@[cell_index(w, a)] == a_id);
                    } else if ids@[cell_index(w, a)] == ids@[cell_index(w, b)] {
                    } else {
                        let j = choose|j: int|
                            0 <= j < old_walls.len() && #[trigger] old_walls[j].cell_a == a
                                && old_walls[j].cell_b == b;
                        if j < k as int {
                            assert(walls@[j].cell_a == a && walls@[j].cell_b == b);
                        } else {
                            assert(walls@[j - 1].cell_a == a && walls@[j - 1].cell_b == b);
                        }
                    }
                }
            }
        }
    }

    proof {
        // Every wall was drawn, so grouphood is closed under grid
        // adjacency and all cells share the group of the start cell.
        let root = ids@[cell_index(w, (1u32, 1u32))];
        let s = Set::new(
            |c: (u32, u32)| valid_cell(h, w, c) && ids@[cell_index(w, c)] == root,
        );
        assert forall|a: (u32, u32), b: (u32, u32)|
            s.contains(a) && valid_cell(h, w, b) && adj2(a, b) implies s.contains(b) by {
            if b == (((a.0 + 2) as u32, a.1)) || b == ((a.0, (a.1 + 2) as u32)) {
                assert(canonical_pair(h, w, a, b));
            } else {
                assert(canonical_pair(h, w, b, a));
            }
        }
        assert(s.contains((1u32, 1u32)));
        assert forall|c: (u32, u32)| valid_cell(h, w, c) implies s.contains(c) by {
            lemma_closed_covers(h, w, s, c);
        }
        // So the group set is the singleton of the root id.
        assert forall|i: int| 0 <= i < ids@.len() implies ids@[i] == root by {
            lemma_cell_index_surjective(h, w, i);
            let c = choose|c: (u32, u32)|
                valid_cell(h, w, c) && #[trigger] cell_index(w, c) == i;
            assert(s.contains(c));
        }
        assert(ids@.to_set() =~= Set::empty().insert(root)) by {
            assert(ids@[0] == root);
            assert(ids@.contains(root));
        }
        assert(ids@.to_set().len() == 1);
        // And every open coordinate has a walk to the start cell.
        assert forall|c: (u32, u32)| m.is_open(c.0 as int, c.1 as int) implies connected(
            m,
            (1u32, 1u32),
            c,
        ) by {
            lemma_cell_index_bound(h, w, (1u32, 1u32));
            if c.0 % 2 == 1 && c.1 % 2 == 1 {
                assert(s.contains(c));
                assert(ids@[cell_index(w, (1u32, 1u32))] == ids@[cell_index(w, c)]);
                assert(connected(m, (1u32, 1u32), c));
            } else {
                assert(wall_joins_open_cells(m, c.0 as int, c.1 as int));
                if c.0 % 2 == 0 {
                    let c1 = (((c.0 - 1) as u32, c.1));
                    assert(valid_cell(h, w, c1) && s.contains(c1));
                    assert(ids@[cell_index(w, (1u32, 1u32))] == ids@[cell_index(w, c1)]);
                    assert(connected(m, (1u32, 1u32), c1));
                    lemma_connected_step(m, (1u32, 1u32), c1, c);
                } else {
                    let c1 = ((c.0, (c.1 - 1) as u32));
                    assert(valid_cell(h, w, c1) && s.contains(c1));
                    assert(ids@[cell_index(w, (1u32, 1u32))] == ids@[cell_index(w, c1)]);
                    assert(connected(m, (1u32, 1u32), c1));
                    lemma_connected_step(m, (1u32, 1u32), c1, c);
                }
            }
        }
    }
    m
}

} // verus!
