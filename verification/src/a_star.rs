//! The A* solver: best-first search guided by accumulated cost plus a
//! Euclidean-distance heuristic (rounded down to an integer).

use vstd::prelude::*;
use crate::maze::Maze;
use crate::paths::{connected, dist1, is_open_path, lemma_open_path_closed_set};

use crate::bfs::{
    construct_path, count_somes, disc, expanded, get_node_neighbours, lemma_count_somes_le,
    lemma_count_somes_update, lemma_count_somes_zero, parent_wf,
};

verus! {

/// Whether the closed flag of `c` is set.
pub(crate) open spec fn closed_at(closed: Seq<bool>, w: u32, c: (u32, u32)) -> bool {
    closed[c.0 + c.1 * w]
}

/// The integer square root: the largest `r` with `r * r <= v`.
pub fn isqrt(v: u128) -> (r: u64)
    requires
        v < 0x40000000000000000u128,
    ensures
        (r as int) * (r as int) <= v < (r as int + 1) * (r as int + 1),
        r <= 0x2_0000_0000u64,
{
    let mut lo: u64 = 0;
    let mut hi: u64 = 0x2_0000_0000u64;
    proof {
        assert((0x2_0000_0000u64 as int + 1) * (0x2_0000_0000u64 as int + 1)
            > 0x40000000000000000u128) by (nonlinear_arith);
    }
    while lo < hi
        invariant
            lo <= hi <= 0x2_0000_0000u64,
            (lo as int) * (lo as int) <= v,
            (hi as int + 1) * (hi as int + 1) > v,
        decreases hi - lo,
    {
        let mid = lo + (hi - lo + 1) / 2;
        proof {
            assert((mid as int) * (mid as int) <= 0x40000000000000000u128)
                by (nonlinear_arith)
                requires
                    0 <= mid <= 0x2_0000_0000u64,
            ;
        }
        if (mid as u128) * (mid as u128) <= v {
            lo = mid;
        } else {
            proof {
                assert((mid as int - 1 + 1) * (mid as int - 1 + 1) > v);
            }
            hi = mid - 1;
        }
    }
    lo
}

/// The squared Euclidean distance between two coordinates.
pub open spec fn sq_dist(a: (u32, u32), b: (u32, u32)) -> int {
    (a.0 - b.0) * (a.0 - b.0) + (a.1 - b.1) * (a.1 - b.1)
}

/// Every non-negative integer has an integer square root.
proof fn lemma_isqrt_exists(s: int)
    requires
        s >= 0,
    ensures
        exists|r: int| r >= 0 && #[trigger] (r * r) <= s && s < (r + 1) * (r + 1),
    decreases s,
{
    if s == 0 {
        assert(0 * 0 <= s && s < (0 + 1) * (0 + 1)) by (nonlinear_arith)
            requires
                s == 0,
        ;
        assert(0 >= 0 && 0 * 0 <= s && s < (0 + 1) * (0 + 1));
    } else {
        lemma_isqrt_exists(s - 1);
        let r0 = choose|r: int| r >= 0 && #[trigger] (r * r) <= s - 1 && s - 1 < (r + 1) * (r + 1);
        if s == (r0 + 1) * (r0 + 1) {
            assert((r0 + 2) * (r0 + 2) > s) by (nonlinear_arith)
                requires
                    r0 >= 0,
                    s == (r0 + 1) * (r0 + 1),
            ;
            assert((r0 + 1) >= 0 && (r0 + 1) * (r0 + 1) <= s && s < (r0 + 1 + 1) * (r0 + 1 + 1));
        } else {
            assert(r0 >= 0 && r0 * r0 <= s && s < (r0 + 1) * (r0 + 1));
        }
    }
}

/// One axis step moves the rounded-down Euclidean distance to the
/// goal by at most one.
proof fn lemma_heuristic_step(a: (u32, u32), b: (u32, u32), goal: (u32, u32), ra: int, rb: int)
    requires
        dist1(a, b),
        ra >= 0,
        rb >= 0,
        ra * ra <= sq_dist(a, goal) < (ra + 1) * (ra + 1),
        rb * rb <= sq_dist(b, goal) < (rb + 1) * (rb + 1),
    ensures
        ra <= rb + 1,
{
    let vx = b.0 - goal.0;
    let vy = b.1 - goal.1;
    let sqv = sq_dist(b, goal);
    let squ = sq_dist(a, goal);
    assert(vx * vx <= sqv && vy * vy <= sqv) by (nonlinear_arith)
        requires
            sqv == vx * vx + vy * vy,
    ;
    assert(-rb <= vx <= rb) by (nonlinear_arith)
        requires
            vx * vx <= sqv,
            sqv < (rb + 1) * (rb + 1),
            rb >= 0,
    ;
    assert(-rb <= vy <= rb) by (nonlinear_arith)
        requires
            vy * vy <= sqv,
            sqv < (rb + 1) * (rb + 1),
            rb >= 0,
    ;
    assert(squ == (a.0 - goal.0) * (a.0 - goal.0) + (a.1 - goal.1) * (a.1 - goal.1));
    assert(squ <= sqv + 2 * rb + 1) by (nonlinear_arith)
        requires
            squ == (a.0 - goal.0) * (a.0 - goal.0) + (a.1 - goal.1) * (a.1 - goal.1),
            sqv == vx * vx + vy * vy,
            vx == b.0 - goal.0,
            vy == b.1 - goal.1,
            (a.0 == b.0 && (a.1 == b.1 + 1 || a.1 == b.1 - 1)) || (a.1 == b.1 && (a.0 == b.0 + 1
                || a.0 == b.0 - 1)),
            -rb <= vx <= rb,
            -rb <= vy <= rb,
    ;
    assert(squ < (rb + 2) * (rb + 2)) by (nonlinear_arith)
        requires
            squ <= sqv + 2 * rb + 1,
            sqv < (rb + 1) * (rb + 1),
            rb >= 0,
    ;
    assert(ra <= rb + 1) by (nonlinear_arith)
        requires
            ra >= 0,
            rb >= 0,
            ra * ra <= squ,
            squ < (rb + 2) * (rb + 2),
    ;
}

/// The heuristic is admissible: the rounded-down Euclidean distance
/// from a coordinate to the goal never exceeds the edge count of any
/// walk between them, so the guide of the search never overestimates.
pub proof fn lemma_heuristic_admissible(m: Maze, q: Seq<(u32, u32)>, goal: (u32, u32), r: int)
    requires
        is_open_path(m, q),
        q.last() == goal,
        r >= 0,
        r * r <= sq_dist(q.first(), goal) < (r + 1) * (r + 1),
    ensures
        r < q.len(),
    decreases q.len(),
{
    if q.len() == 1 {
        assert((goal.0 - goal.0) * (goal.0 - goal.0) == 0 && (goal.1 - goal.1) * (goal.1
            - goal.1) == 0) by (nonlinear_arith);
        assert(sq_dist(q.first(), goal) == 0);
        assert(r == 0) by (nonlinear_arith)
            requires
                r >= 0,
                r * r <= 0,
        ;
    } else {
        let tail = q.drop_first();
        assert forall|i: int| 0 <= i < tail.len() implies m.is_open(
            #[trigger] tail[i].0 as int,
            tail[i].1 as int,
        ) by {
            assert(m.is_open(q[i + 1].0 as int, q[i + 1].1 as int));
        }
        assert forall|i: int| 0 <= i < tail.len() - 1 implies dist1(
            #[trigger] tail[i],
            tail[i + 1],
        ) by {
            assert(dist1(q[i + 1], q[i + 2]));
        }
        let s1 = sq_dist(q[1], goal);
        assert(s1 >= 0) by (nonlinear_arith)
            requires
                s1 == (q[1].0 - goal.0) * (q[1].0 - goal.0) + (q[1].1 - goal.1) * (q[1].1
                    - goal.1),
        ;
        lemma_isqrt_exists(sq_dist(q[1], goal));
        let r2 = choose|r2: int|
            r2 >= 0 && #[trigger] (r2 * r2) <= sq_dist(q[1], goal) && sq_dist(q[1], goal) < (r2
                + 1) * (r2 + 1);
        assert(dist1(q[0], q[1]));
        lemma_heuristic_step(q[0], q[1], goal, r, r2);
        lemma_heuristic_admissible(m, tail, goal, r2);
    }
}

/// The rounded-down Euclidean distance from `c` to `goal`: the unique
/// integer whose square brackets the squared distance.
#[verifier::opaque]
pub open spec fn heur(c: (u32, u32), goal: (u32, u32)) -> int {
    choose|r: int|
        r >= 0 && #[trigger] (r * r) <= sq_dist(c, goal) && sq_dist(c, goal) < (r + 1) * (r + 1)
}

/// The heuristic value exists and brackets the squared distance.
proof fn lemma_heur_bounds(c: (u32, u32), goal: (u32, u32))
    ensures
        heur(c, goal) >= 0,
        heur(c, goal) * heur(c, goal) <= sq_dist(c, goal),
        sq_dist(c, goal) < (heur(c, goal) + 1) * (heur(c, goal) + 1),
{
    reveal(heur);
    assert(sq_dist(c, goal) >= 0) by (nonlinear_arith)
        requires
            sq_dist(c, goal) == (c.0 - goal.0) * (c.0 - goal.0) + (c.1 - goal.1) * (c.1 - goal.1),
    ;
    lemma_isqrt_exists(sq_dist(c, goal));
}

/// Any integer bracketing the squared distance is the heuristic value.
proof fn lemma_heur_is(c: (u32, u32), goal: (u32, u32), r: int)
    requires
        r >= 0,
        r * r <= sq_dist(c, goal),
        sq_dist(c, goal) < (r + 1) * (r + 1),
    ensures
        heur(c, goal) == r,
{
    lemma_heur_bounds(c, goal);
    let r0 = heur(c, goal);
    assert(r0 == r) by (nonlinear_arith)
        requires
            r >= 0,
            r0 >= 0,
            r * r <= sq_dist(c, goal),
            sq_dist(c, goal) < (r + 1) * (r + 1),
            r0 * r0 <= sq_dist(c, goal),
            sq_dist(c, goal) < (r0 + 1) * (r0 + 1),
    ;
}

/// The heuristic is consistent along a walk: from its first
/// coordinate it is at most the edge count plus the heuristic of its
/// last.
proof fn lemma_heur_suffix(m: Maze, q: Seq<(u32, u32)>, goal: (u32, u32))
    requires
        is_open_path(m, q),
    ensures
        heur(q.first(), goal) <= q.len() - 1 + heur(q.last(), goal),
    decreases q.len(),
{
    lemma_heur_bounds(q.first(), goal);
    if q.len() > 1 {
        let tail = q.drop_first();
        assert forall|i: int| 0 <= i < tail.len() implies m.is_open(
            #[trigger] tail[i].0 as int,
            tail[i].1 as int,
        ) by {
            assert(m.is_open(q[i + 1].0 as int, q[i + 1].1 as int));
        }
        assert forall|i: int| 0 <= i < tail.len() - 1 implies dist1(
            #[trigger] tail[i],
            tail[i + 1],
        ) by {
            assert(dist1(q[i + 1], q[i + 2]));
        }
        lemma_heur_bounds(q[1], goal);
        assert(dist1(q[0], q[1]));
        lemma_heuristic_step(q[0], q[1], goal, heur(q[0], goal), heur(q[1], goal));
        lemma_heur_suffix(m, tail, goal);
    }
}

/// Every walk from `start` to `c` has more coordinates than `gval`:
/// the stored cost undercuts no walk.
#[verifier::opaque]
pub(crate) open spec fn g_minimal(m: Maze, gval: int, start: (u32, u32), c: (u32, u32)) -> bool {
    forall|q: Seq<(u32, u32)>|
        is_open_path(m, q) && q.first() == start && q.last() == c ==> q.len() > gval
}

/// A walk ending outside the closed set has a first coordinate
/// outside it.
proof fn lemma_first_unclosed(closed: Seq<bool>, w: u32, q: Seq<(u32, u32)>)
    requires
        q.len() >= 1,
        !closed_at(closed, w, q.last()),
    ensures
        exists|k: int|
            0 <= k < q.len() && !closed_at(closed, w, #[trigger] q[k]) && (forall|j: int|
                0 <= j < k ==> closed_at(closed, w, q[j])),
    decreases q.len(),
{
    if !closed_at(closed, w, q[0]) {
        assert(0 <= 0 < q.len() && !closed_at(closed, w, q[0]) && (forall|j: int|
            0 <= j < 0 ==> closed_at(closed, w, q[j])));
    } else {
        let tail = q.drop_first();
        lemma_first_unclosed(closed, w, tail);
        let k0 = choose|k: int|
            0 <= k < tail.len() && !closed_at(closed, w, #[trigger] tail[k]) && (forall|j: int|
                0 <= j < k ==> closed_at(closed, w, tail[j]));
        assert(q[k0 + 1] == tail[k0]);
        assert forall|j: int| 0 <= j < k0 + 1 implies closed_at(closed, w, q[j]) by {
            if j > 0 {
                assert(tail[j - 1] == q[j]);
            }
        }
        assert(0 <= k0 + 1 < q.len() && !closed_at(closed, w, q[k0 + 1]) && (forall|j: int|
            0 <= j < k0 + 1 ==> closed_at(closed, w, q[j])));
    }
}

/// At selection time the minimal-f member of the open set carries a
/// cost that undercuts no walk from the start: any walk first leaves
/// the closed set at a coordinate whose cost and heuristic bound the
/// selected f-score from below.
#[verifier::rlimit(100)]
proof fn lemma_selected_g_minimal(
    m: Maze,
    parent: Seq<Option<(u32, u32)>>,
    g: Seq<u64>,
    f: Seq<u64>,
    closed: Seq<bool>,
    open_set: Seq<(u32, u32)>,
    start: (u32, u32),
    end: (u32, u32),
    current: (u32, u32),
)
    requires
        m.wf(),
        m.in_bounds(start.0 as int, start.1 as int),
        disc(parent, m.spec_width(), start),
        g[start.0 + start.1 * m.spec_width()] == 0,
        m.in_bounds(current.0 as int, current.1 as int),
        open_set.contains(current),
        !closed_at(closed, m.spec_width(), current),
        forall|i: int|
            0 <= i < open_set.len() ==> f_at(f, m.spec_width(), current) <= f_at(
                f,
                m.spec_width(),
                #[trigger] open_set[i],
            ),
        forall|i: int|
            0 <= i < open_set.len() ==> {
                &&& m.in_bounds(#[trigger] open_set[i].0 as int, open_set[i].1 as int)
                &&& disc(parent, m.spec_width(), open_set[i])
                &&& !closed_at(closed, m.spec_width(), open_set[i])
            },
        forall|c: (u32, u32)|
            m.in_bounds(c.0 as int, c.1 as int) && #[trigger] disc(parent, m.spec_width(), c)
                && !closed_at(closed, m.spec_width(), c) ==> open_set.contains(c),
        forall|c: (u32, u32)|
            m.in_bounds(c.0 as int, c.1 as int) && #[trigger] closed_at(closed, m.spec_width(), c)
                ==> disc(parent, m.spec_width(), c) && expanded(m, parent, c),
        forall|c: (u32, u32)|
            m.in_bounds(c.0 as int, c.1 as int) && #[trigger] closed_at(closed, m.spec_width(), c)
                ==> g_minimal(m, g[c.0 + c.1 * m.spec_width()] as int, start, c),
        forall|c: (u32, u32), n: (u32, u32)|
            #![trigger closed_at(closed, m.spec_width(), c), dist1(c, n)]
            m.in_bounds(c.0 as int, c.1 as int) && closed_at(closed, m.spec_width(), c)
                && m.is_open(n.0 as int, n.1 as int) && dist1(c, n) && !closed_at(
                closed,
                m.spec_width(),
                n,
            ) ==> g[n.0 + n.1 * m.spec_width()] as int <= g[c.0 + c.1 * m.spec_width()] as int + 1,
        forall|c: (u32, u32)|
            m.in_bounds(c.0 as int, c.1 as int) && #[trigger] disc(parent, m.spec_width(), c)
                ==> f[c.0 + c.1 * m.spec_width()] as int == g[c.0 + c.1 * m.spec_width()] as int
                + heur(c, end),
    ensures
        forall|q: Seq<(u32, u32)>|
            is_open_path(m, q) && q.first() == start && q.last() == current ==> q.len() > g[current.0
                + current.1 * m.spec_width()] as int,
{
    let w = m.spec_width();
    assert forall|q: Seq<(u32, u32)>|
        is_open_path(m, q) && q.first() == start && q.last() == current implies q.len() > g[current.0
        + current.1 * w] as int by {
        lemma_first_unclosed(closed, w, q);
        let k = choose|k: int|
            0 <= k < q.len() && !closed_at(closed, w, #[trigger] q[k]) && (forall|j: int|
                0 <= j < k ==> closed_at(closed, w, q[j]));
        let u = q[k];
        assert(m.is_open(u.0 as int, u.1 as int));
        // The first coordinate outside the closed set is on the open
        // set, with a cost no larger than its position.
        if k == 0 {
            assert(u == start);
            assert(open_set.contains(u));
        } else {
            let prev = q[k - 1];
            assert(closed_at(closed, w, prev));
            assert(m.is_open(prev.0 as int, prev.1 as int));
            let prefix = q.take(k);
            assert forall|i: int| 0 <= i < prefix.len() implies m.is_open(
                #[trigger] prefix[i].0 as int,
                prefix[i].1 as int,
            ) by {
                assert(m.is_open(q[i].0 as int, q[i].1 as int));
            }
            assert forall|i: int| 0 <= i < prefix.len() - 1 implies dist1(
                #[trigger] prefix[i],
                prefix[i + 1],
            ) by {
                assert(dist1(q[i], q[i + 1]));
            }
            assert(is_open_path(m, prefix));
            assert(prefix.first() == start && prefix.last() == prev);
            assert(g_minimal(m, g[prev.0 + prev.1 * w] as int, start, prev));
            assert(prefix.len() > g[prev.0 + prev.1 * w] as int) by {
                reveal(g_minimal);
            }
            assert(dist1(prev, u));
            assert(g[u.0 + u.1 * w] as int <= g[prev.0 + prev.1 * w] as int + 1);
            assert(disc(parent, w, u)) by {
                assert(expanded(m, parent, prev));
            }
            assert(open_set.contains(u));
        }
        assert(g[u.0 + u.1 * w] as int <= k);
        // The selected f-score is below the witness's, and the
        // heuristic is consistent along the rest of the walk.
        let iu = choose|i: int| 0 <= i < open_set.len() && open_set[i] == u;
        assert(f_at(f, w, current) <= f_at(f, w, open_set[iu]));
        let suffix = q.skip(k);
        assert forall|i: int| 0 <= i < suffix.len() implies m.is_open(
            #[trigger] suffix[i].0 as int,
            suffix[i].1 as int,
        ) by {
            assert(m.is_open(q[i + k].0 as int, q[i + k].1 as int));
        }
        assert forall|i: int| 0 <= i < suffix.len() - 1 implies dist1(
            #[trigger] suffix[i],
            suffix[i + 1],
        ) by {
            assert(dist1(q[i + k], q[i + k + 1]));
        }
        assert(is_open_path(m, suffix));
        assert(suffix.first() == u && suffix.last() == current);
        lemma_heur_suffix(m, suffix, end);
        assert(heur(u, end) <= q.len() - 1 - k + heur(current, end));
        assert(disc(parent, w, current));
        assert(f[current.0 + current.1 * w] as int == g[current.0 + current.1 * w] as int + heur(
            current,
            end,
        ));
        assert(f[u.0 + u.1 * w] as int == g[u.0 + u.1 * w] as int + heur(u, end));
    }
}

/// The edge weight between two adjacent coordinates: always one.
pub fn distance_between(node: (u32, u32), other: (u32, u32)) -> (r: u64)
    ensures
        r == 1,
{
    1
}

/// The Euclidean distance from `node` to `goal`, rounded down: the
/// largest `r` whose square is at most the squared distance.
pub fn heuristic_cost(node: (u32, u32), goal: (u32, u32)) -> (r: u64)
    ensures
        r < 0x4_0000_0000u64,
        (r as int) * (r as int) <= sq_dist(node, goal) < (r as int + 1) * (r as int + 1),
{
    let dx: u64 = if node.0 >= goal.0 {
        (node.0 - goal.0) as u64
    } else {
        (goal.0 - node.0) as u64
    };
    let dy: u64 = if node.1 >= goal.1 {
        (node.1 - goal.1) as u64
    } else {
        (goal.1 - node.1) as u64
    };
    proof {
        assert((dx as int) * (dx as int) + (dy as int) * (dy as int)
            < 0x40000000000000000u128) by (nonlinear_arith)
            requires
                0 <= dx < 0x1_0000_0000,
                0 <= dy < 0x1_0000_0000,
        ;
        assert((dx as int) * (dx as int) + (dy as int) * (dy as int) == sq_dist(node, goal))
            by (nonlinear_arith)
            requires
                dx == if node.0 >= goal.0 {
                    node.0 - goal.0
                } else {
                    goal.0 - node.0
                },
                dy == if node.1 >= goal.1 {
                    node.1 - goal.1
                } else {
                    goal.1 - node.1
                },
        ;
    }
    let dd: u128 = (dx as u128) * (dx as u128) + (dy as u128) * (dy as u128);
    let r = isqrt(dd);
    r
}

/// The stored f-score of a coordinate.
pub open spec fn f_at(f_costs: Seq<u64>, w: u32, c: (u32, u32)) -> u64 {
    f_costs[c.0 + c.1 * w]
}

/// The position of a member of the open set with the lowest f-score,
/// or `None` when the open set is empty.
pub fn find_lowest_fcost(nodes: &Vec<(u32, u32)>, f_costs: &Vec<u64>, maze: &Maze) -> (r: Option<
    usize,
>)
    requires
        maze.wf(),
        f_costs@.len() == maze.spec_height() * maze.spec_width(),
        forall|i: int|
            0 <= i < nodes@.len() ==> maze.in_bounds(
                #[trigger] nodes@[i].0 as int,
                nodes@[i].1 as int,
            ),
    ensures
        match r {
            Some(k) => k < nodes@.len() && forall|i: int|
                0 <= i < nodes@.len() ==> f_at(f_costs@, maze.spec_width(), nodes@[k as int])
                    <= f_at(f_costs@, maze.spec_width(), #[trigger] nodes@[i]),
            None => nodes@.len() == 0,
        },
{
    let w = maze.width();
    let h = maze.height();
    if nodes.len() == 0 {
        return None;
    }
    let mut best: usize = 0;
    let mut i: usize = 1;
    proof {
        crate::maze::lemma_coord_index_bound(
            nodes@[0].0 as int,
            nodes@[0].1 as int,
            w as int,
            h as int,
        );
    }
    while i < nodes.len()
        invariant
            maze.wf(),
            maze.spec_width() == w,
            maze.spec_height() == h,
            f_costs@.len() == h * w,
            forall|j: int|
                0 <= j < nodes@.len() ==> maze.in_bounds(
                    #[trigger] nodes@[j].0 as int,
                    nodes@[j].1 as int,
                ),
            1 <= i <= nodes@.len(),
            best < i,
            forall|j: int|
                0 <= j < i ==> f_at(f_costs@, w, nodes@[best as int]) <= f_at(
                    f_costs@,
                    w,
                    #[trigger] nodes@[j],
                ),
        decreases nodes@.len() - i,
    {
        proof {
            crate::maze::lemma_coord_index_bound(
                nodes@[i as int].0 as int,
                nodes@[i as int].1 as int,
                w as int,
                h as int,
            );
            crate::maze::lemma_coord_index_bound(
                nodes@[best as int].0 as int,
                nodes@[best as int].1 as int,
                w as int,
                h as int,
            );
        }
        let c = nodes[i];
        let b = nodes[best];
        if f_costs[c.0 as usize + c.1 as usize * w as usize] < f_costs[b.0 as usize + b.1 as usize
            * w as usize] {
            best = i;
        }
        i = i + 1;
    }
    Some(best)
}

/// Whether the open set already holds `t`.
fn open_set_contains(nodes: &Vec<(u32, u32)>, t: (u32, u32)) -> (r: bool)
    ensures
        r == nodes@.contains(t),
{
    let mut i: usize = 0;
    while i < nodes.len()
        invariant
            i <= nodes@.len(),
            forall|j: int| 0 <= j < i ==> nodes@[j] != t,
        decreases nodes@.len() - i,
    {
        let c = nodes[i];
        if c.0 == t.0 && c.1 == t.1 {
            proof {
                assert(nodes@[i as int] == t);
            }
            return true;
        }
        i = i + 1;
    }
    proof {
        if nodes@.contains(t) {
            let j = choose|j: int| 0 <= j < nodes@.len() && nodes@[j] == t;
            assert(nodes@[j] != t);
        }
    }
    false
}

/// Re-pointing a discovered coordinate (or discovering a fresh one)
/// at a strictly cheaper predecessor keeps the search forest
/// well-formed.
#[verifier::rlimit(100)]
proof fn lemma_relax(
    m: Maze,
    pre: Seq<Option<(u32, u32)>>,
    post: Seq<Option<(u32, u32)>>,
    measure_pre: Map<(u32, u32), nat>,
    measure_post: Map<(u32, u32), nat>,
    g_new: nat,
    start: (u32, u32),
    cur: (u32, u32),
    t: (u32, u32),
)
    requires
        m.wf(),
        pre.len() == m.spec_height() * m.spec_width(),
        parent_wf(m, pre, measure_pre, start),
        m.in_bounds(cur.0 as int, cur.1 as int),
        disc(pre, m.spec_width(), cur),
        m.is_open(t.0 as int, t.1 as int),
        dist1(cur, t),
        t != start,
        t != cur,
        g_new > measure_pre[cur],
        disc(pre, m.spec_width(), t) ==> g_new < measure_pre[t],
        post == pre.update(t.0 + t.1 * m.spec_width(), Some(cur)),
        measure_post == measure_pre.insert(t, g_new),
    ensures
        parent_wf(m, post, measure_post, start),
        forall|c: (u32, u32)|
            m.in_bounds(c.0 as int, c.1 as int) && #[trigger] disc(pre, m.spec_width(), c)
                ==> disc(post, m.spec_width(), c),
        forall|c: (u32, u32)|
            m.in_bounds(c.0 as int, c.1 as int) && #[trigger] disc(post, m.spec_width(), c) ==> c
                == t || disc(pre, m.spec_width(), c),
        disc(post, m.spec_width(), t),
{
    let w = m.spec_width();
    let h = m.spec_height();
    crate::maze::lemma_coord_index_bound(t.0 as int, t.1 as int, w as int, h as int);
    assert(disc(post, w, t));
    assert forall|c: (u32, u32)|
        m.in_bounds(c.0 as int, c.1 as int) && c != t implies post[c.0 + c.1 * w] == pre[c.0 + c.1
        * w] by {
        crate::maze::lemma_coord_index_bound(c.0 as int, c.1 as int, w as int, h as int);
        crate::maze::lemma_coord_index_injective(
            c.0 as int,
            c.1 as int,
            t.0 as int,
            t.1 as int,
            w as int,
            h as int,
        );
    }
    assert forall|c: (u32, u32)|
        m.in_bounds(c.0 as int, c.1 as int) && #[trigger] disc(post, w, c) implies {
        &&& m.is_open(c.0 as int, c.1 as int)
        &&& measure_post.dom().contains(c)
        &&& (c != start ==> {
            let p = post[c.0 + c.1 * w]->Some_0;
            &&& dist1(p, c)
            &&& m.in_bounds(p.0 as int, p.1 as int)
            &&& disc(post, w, p)
            &&& measure_post.dom().contains(p)
            &&& measure_post[c] > measure_post[p]
        })
    } by {
        if c == t {
            assert(post[c.0 + c.1 * w] == Some(cur));
            assert(disc(pre, w, cur));
            assert(measure_post[t] == g_new);
            assert(measure_post[cur] == measure_pre[cur]);
        } else {
            assert(disc(pre, w, c));
            if c != start {
                let p = pre[c.0 + c.1 * w]->Some_0;
                assert(measure_pre[c] > measure_pre[p]);
                if p == t {
                    assert(disc(pre, w, t));
                    assert(measure_post[p] == g_new);
                    assert(measure_post[c] == measure_pre[c]);
                } else {
                    assert(measure_post[p] == measure_pre[p]);
                }
            }
        }
    }
}

/// A search with an empty open set has expanded everything it
/// discovered without meeting `end`, so no walk reaches `end`.
proof fn lemma_astar_no_path(
    m: Maze,
    parent: Seq<Option<(u32, u32)>>,
    measure: Map<(u32, u32), nat>,
    start: (u32, u32),
    end: (u32, u32),
)
    requires
        m.wf(),
        m.is_open(start.0 as int, start.1 as int),
        parent_wf(m, parent, measure, start),
        forall|c: (u32, u32)|
            m.in_bounds(c.0 as int, c.1 as int) && #[trigger] disc(parent, m.spec_width(), c)
                ==> expanded(m, parent, c) && c != end,
    ensures
        !connected(m, start, end),
{
    let w = m.spec_width();
    let s = Set::new(|c: (u32, u32)| m.in_bounds(c.0 as int, c.1 as int) && disc(parent, w, c));
    assert forall|a: (u32, u32), b: (u32, u32)|
        s.contains(a) && m.is_open(b.0 as int, b.1 as int) && dist1(a, b) implies s.contains(
        b,
    ) by {
        assert(expanded(m, parent, a));
    }
    if connected(m, start, end) {
        let p = choose|p: Seq<(u32, u32)>|
            is_open_path(m, p) && p.first() == start && p.last() == end;
        assert(s.contains(start));
        lemma_open_path_closed_set(m, s, p);
        assert(disc(parent, w, end));
    }
}

/// Finds a path from `start` to `end` by A* search: the member of the
/// open set with the lowest f-score is expanded first, where f is the
/// accumulated step count plus the Euclidean distance to `end`
/// rounded down.  Returns a walk from `start` to `end` whenever one
/// exists, and `None` exactly when `end` is not reachable from
/// `start`.
#[verifier::rlimit(100)]
pub fn solve(start: (u32, u32), end: (u32, u32), maze: &Maze) -> (r: Option<Vec<(u32, u32)>>)
    requires
        maze.wf(),
        maze.is_open(start.0 as int, start.1 as int),
    ensures
        match r {
            Some(p) => {
                &&& is_open_path(*maze, p@)
                &&& p@.first() == start
                &&& p@.last() == end
                &&& forall|q: Seq<(u32, u32)>|
                    is_open_path(*maze, q) && q.first() == start && q.last() == end ==> p@.len()
                        <= q.len()
            },
            None => !connected(*maze, start, end),
        },
{
    let w = maze.width();
    let h = maze.height();
    let total = maze.coord_count();
    let mut parent: Vec<Option<(u32, u32)>> = Vec::new();
    let mut closed: Vec<bool> = Vec::new();
    let mut g_score: Vec<u64> = Vec::new();
    let mut f_score: Vec<u64> = Vec::new();
    let mut k: usize = 0;
    while k < total
        invariant
            k <= total,
            parent@.len() == k,
            closed@.len() == k,
            g_score@.len() == k,
            f_score@.len() == k,
            forall|j: int| 0 <= j < k ==> parent@[j] is None,
            forall|j: int| 0 <= j < k ==> !closed@[j],
            forall|j: int| 0 <= j < k ==> g_score@[j] == u64::MAX,
        decreases total - k,
    {
        parent.push(None);
        closed.push(false);
        g_score.push(u64::MAX);
        f_score.push(u64::MAX);
        k = k + 1;
    }
    let ghost parent_init = parent@;
    proof {
        crate::maze::lemma_coord_index_bound(start.0 as int, start.1 as int, w as int, h as int);
        lemma_count_somes_zero(parent_init);
        lemma_count_somes_update(parent_init, start.0 + start.1 * w, start);
        crate::maze::lemma_count_trues_zero(closed@);
    }
    let ghost mut measure: Map<(u32, u32), nat> = Map::empty().insert(start, 0);
    let si = start.0 as usize + start.1 as usize * w as usize;
    parent.set(si, Some(start));
    g_score.set(si, 0);
    let h0 = heuristic_cost(start, end);
    f_score.set(si, h0);
    proof {
        assert forall|c: (u32, u32)|
            maze.in_bounds(c.0 as int, c.1 as int) && #[trigger] disc(parent@, w, c) implies c
            == start by {
            crate::maze::lemma_coord_index_bound(c.0 as int, c.1 as int, w as int, h as int);
            if c != start {
                crate::maze::lemma_coord_index_injective(
                    c.0 as int,
                    c.1 as int,
                    start.0 as int,
                    start.1 as int,
                    w as int,
                    h as int,
                );
            }
        }
        assert(parent_wf(*maze, parent@, measure, start));
    }
    proof {
        lemma_heur_is(start, end, h0 as int);
    }
    let mut open_set: Vec<(u32, u32)> = Vec::new();
    open_set.push(start);
    proof {
        assert(open_set@[0] == start);
        assert forall|c: (u32, u32)|
            maze.in_bounds(c.0 as int, c.1 as int) implies !closed_at(closed@, w, c) && (c != start
            ==> g_score@[c.0 + c.1 * w] == u64::MAX && !disc(parent@, w, c)) by {
            crate::maze::lemma_coord_index_bound(c.0 as int, c.1 as int, w as int, h as int);
            if c != start {
                crate::maze::lemma_coord_index_injective(
                    c.0 as int,
                    c.1 as int,
                    start.0 as int,
                    start.1 as int,
                    w as int,
                    h as int,
                );
            }
        }
        assert forall|c: (u32, u32)|
            maze.in_bounds(c.0 as int, c.1 as int) && #[trigger] disc(parent@, w, c)
                && !closed_at(closed@, w, c) implies open_set@.contains(c) by {
            assert(c == start);
            assert(open_set@[0] == c);
        }
    }
    while open_set.len() > 0
        invariant
            maze.wf(),
            maze.spec_width() == w,
            maze.spec_height() == h,
            maze.is_open(start.0 as int, start.1 as int),
            parent@.len() == h * w,
            closed@.len() == h * w,
            g_score@.len() == h * w,
            f_score@.len() == h * w,
            count_somes(parent@) <= parent@.len(),
            parent_wf(*maze, parent@, measure, start),
            forall|i: int|
                0 <= i < open_set@.len() ==> {
                    &&& maze.in_bounds(#[trigger] open_set@[i].0 as int, open_set@[i].1 as int)
                    &&& disc(parent@, w, open_set@[i])
                    &&& !closed_at(closed@, w, open_set@[i])
                },
            forall|c: (u32, u32)|
                maze.in_bounds(c.0 as int, c.1 as int) && #[trigger] disc(parent@, w, c)
                    && !closed_at(closed@, w, c) ==> open_set@.contains(c),
            forall|c: (u32, u32)|
                maze.in_bounds(c.0 as int, c.1 as int) && #[trigger] closed_at(closed@, w, c) ==> {
                    &&& disc(parent@, w, c)
                    &&& expanded(*maze, parent@, c)
                    &&& c != end
                },
            forall|c: (u32, u32)|
                maze.in_bounds(c.0 as int, c.1 as int) && #[trigger] disc(parent@, w, c)
                    ==> measure[c] == g_score@[c.0 + c.1 * w] && g_score@[c.0 + c.1 * w] as int
                    <= crate::maze::count_trues(closed@),
            forall|c: (u32, u32)|
                maze.in_bounds(c.0 as int, c.1 as int) && !#[trigger] disc(parent@, w, c)
                    ==> g_score@[c.0 + c.1 * w] == u64::MAX,
            open_set@.no_duplicates(),
            crate::maze::count_trues(closed@) <= closed@.len(),
            g_score@[start.0 + start.1 * w] == 0,
            forall|c: (u32, u32)|
                maze.in_bounds(c.0 as int, c.1 as int) && #[trigger] disc(parent@, w, c)
                    ==> f_score@[c.0 + c.1 * w] as int == g_score@[c.0 + c.1 * w] as int + heur(
                    c,
                    end,
                ),
            forall|c: (u32, u32)|
                maze.in_bounds(c.0 as int, c.1 as int) && #[trigger] closed_at(closed@, w, c)
                    ==> g_minimal(*maze, g_score@[c.0 + c.1 * w] as int, start, c),
            forall|c: (u32, u32), n: (u32, u32)|
                #![trigger closed_at(closed@, w, c), dist1(c, n)]
                maze.in_bounds(c.0 as int, c.1 as int) && closed_at(closed@, w, c) && maze.is_open(
                    n.0 as int,
                    n.1 as int,
                ) && dist1(c, n) && !closed_at(closed@, w, n) ==> g_score@[n.0 + n.1 * w] as int
                    <= g_score@[c.0 + c.1 * w] as int + 1,
        decreases h * w - count_somes(parent@), open_set@.len(),
    {
        let lowest = find_lowest_fcost(&open_set, &f_score, maze);
        let li = match lowest {
            Some(li) => li,
            None => { 0 },
        };
        let ghost open_entry = open_set@;
        let current = open_set.remove(li);
        proof {
            crate::maze::lemma_coord_index_bound(
                current.0 as int,
                current.1 as int,
                w as int,
                h as int,
            );
            lemma_selected_g_minimal(
                *maze,
                parent@,
                g_score@,
                f_score@,
                closed@,
                open_entry,
                start,
                end,
                current,
            );
        }
        if current.0 == end.0 && current.1 == end.1 {
            let path = construct_path(maze, &parent, start, end, Ghost(measure));
            proof {
                assert forall|q: Seq<(u32, u32)>|
                    is_open_path(*maze, q) && q.first() == start && q.last()
                        == end implies path@.len() <= q.len() by {
                    assert(q.len() > g_score@[end.0 + end.1 * w] as int);
                    assert(measure[end] == g_score@[end.0 + end.1 * w]);
                }
            }
            return Some(path);
        }
        let ci = current.0 as usize + current.1 as usize * w as usize;
        let ghost closed_entry = closed@;
        proof {
            crate::maze::lemma_count_trues_update(closed@, ci as int);
        }
        closed.set(ci, true);
        proof {
            lemma_after_close(
                *maze,
                parent@,
                closed_entry,
                closed@,
                g_score@,
                open_entry,
                open_set@,
                li as int,
                current,
                start,
            );
        }
        let ghost g_before_expand = g_score@;
        let gm = expand_neighbours(
            maze,
            &mut parent,
            &mut g_score,
            &mut f_score,
            &mut open_set,
            &closed,
            current,
            end,
            start,
            Ghost(measure),
        );
        let ghost g_before = g_before_expand;
        proof {
            measure = gm@;
            assert forall|c: (u32, u32)|
                maze.in_bounds(c.0 as int, c.1 as int) && #[trigger] closed_at(
                closed@,
                w,
                c,
            ) implies {
                &&& disc(parent@, w, c)
                &&& expanded(*maze, parent@, c)
                &&& c != end
            } by {
                if c == current {
                    assert(disc(parent@, w, current));
                }
            }
            lemma_g_minimal_transfer(*maze, g_before, g_score@, closed@, start);
        }
    }
    proof {
        assert forall|c: (u32, u32)|
            maze.in_bounds(c.0 as int, c.1 as int) && #[trigger] disc(parent@, w, c)
                implies expanded(*maze, parent@, c) && c != end by {
            if !closed_at(closed@, w, c) {
                assert(open_set@.contains(c));
            }
        }
        lemma_astar_no_path(*maze, parent@, measure, start, end);
    }
    None
}


/// One relaxation keeps every cost-table fact: untouched entries stay,
/// the fresh entry carries its cost plus the exact heuristic, and the
/// one-step bound from closed coordinates is preserved.
#[verifier::rlimit(100)]
proof fn lemma_relax_extras(
    m: Maze,
    pre: Seq<Option<(u32, u32)>>,
    post: Seq<Option<(u32, u32)>>,
    g_pre: Seq<u64>,
    g_post: Seq<u64>,
    f_pre: Seq<u64>,
    f_post: Seq<u64>,
    measure_pre: Map<(u32, u32), nat>,
    measure_post: Map<(u32, u32), nat>,
    closed: Seq<bool>,
    g_entry: Seq<u64>,
    current: (u32, u32),
    t: (u32, u32),
    end: (u32, u32),
    gc: u64,
    score: u64,
    ht: u64,
    fv: u64,
)
    requires
        m.wf(),
        pre.len() == m.spec_height() * m.spec_width(),
        g_pre.len() == m.spec_height() * m.spec_width(),
        f_pre.len() == m.spec_height() * m.spec_width(),
        closed.len() == m.spec_height() * m.spec_width(),
        g_entry.len() == m.spec_height() * m.spec_width(),
        m.in_bounds(t.0 as int, t.1 as int),
        m.in_bounds(current.0 as int, current.1 as int),
        t != current,
        !closed_at(closed, m.spec_width(), t),
        closed_at(closed, m.spec_width(), current),
        post == pre.update(t.0 + t.1 * m.spec_width(), Some(current)),
        g_post == g_pre.update(t.0 + t.1 * m.spec_width(), score),
        f_post == f_pre.update(t.0 + t.1 * m.spec_width(), fv),
        fv as int == score as int + ht as int,
        score as int == gc as int + 1,
        gc == g_pre[current.0 + current.1 * m.spec_width()],
        (gc as int) < crate::maze::count_trues(closed),
        (score as int) < g_pre[t.0 + t.1 * m.spec_width()] as int,
        measure_post == measure_pre.insert(t, score as nat),
        (ht as int) * (ht as int) <= sq_dist(t, end),
        sq_dist(t, end) < (ht as int + 1) * (ht as int + 1),
        disc(pre, m.spec_width(), current),
        forall|c: (u32, u32)|
            m.in_bounds(c.0 as int, c.1 as int) && #[trigger] disc(pre, m.spec_width(), c)
                ==> measure_pre[c] == g_pre[c.0 + c.1 * m.spec_width()] && g_pre[c.0 + c.1
                * m.spec_width()] as int <= crate::maze::count_trues(closed),
        forall|c: (u32, u32)|
            m.in_bounds(c.0 as int, c.1 as int) && !#[trigger] disc(pre, m.spec_width(), c)
                ==> g_pre[c.0 + c.1 * m.spec_width()] == u64::MAX,
        forall|c: (u32, u32)|
            m.in_bounds(c.0 as int, c.1 as int) && #[trigger] disc(pre, m.spec_width(), c)
                ==> f_pre[c.0 + c.1 * m.spec_width()] as int == g_pre[c.0 + c.1
                * m.spec_width()] as int + heur(c, end),
        forall|c: (u32, u32), n: (u32, u32)|
            #![trigger closed_at(closed, m.spec_width(), c), dist1(c, n)]
            m.in_bounds(c.0 as int, c.1 as int) && closed_at(closed, m.spec_width(), c) && c
                != current && m.is_open(n.0 as int, n.1 as int) && dist1(c, n) && !closed_at(
                closed,
                m.spec_width(),
                n,
            ) ==> g_pre[n.0 + n.1 * m.spec_width()] as int <= g_pre[c.0 + c.1
                * m.spec_width()] as int + 1,
        forall|c: (u32, u32)|
            m.in_bounds(c.0 as int, c.1 as int) && #[trigger] closed_at(closed, m.spec_width(), c)
                ==> g_pre[c.0 + c.1 * m.spec_width()] == g_entry[c.0 + c.1 * m.spec_width()],
    ensures
        forall|c: (u32, u32)|
            m.in_bounds(c.0 as int, c.1 as int) && c != t ==> g_post[#[trigger] (c.0 + c.1
                * m.spec_width())] == g_pre[c.0 + c.1 * m.spec_width()] && post[c.0 + c.1
                * m.spec_width()] == pre[c.0 + c.1 * m.spec_width()] && f_post[c.0 + c.1
                * m.spec_width()] == f_pre[c.0 + c.1 * m.spec_width()],
        forall|c: (u32, u32)|
            m.in_bounds(c.0 as int, c.1 as int) && #[trigger] disc(post, m.spec_width(), c)
                ==> measure_post[c] == g_post[c.0 + c.1 * m.spec_width()] && g_post[c.0 + c.1
                * m.spec_width()] as int <= crate::maze::count_trues(closed),
        forall|c: (u32, u32)|
            m.in_bounds(c.0 as int, c.1 as int) && !#[trigger] disc(post, m.spec_width(), c)
                ==> g_post[c.0 + c.1 * m.spec_width()] == u64::MAX,
        forall|c: (u32, u32)|
            m.in_bounds(c.0 as int, c.1 as int) && #[trigger] disc(post, m.spec_width(), c)
                ==> f_post[c.0 + c.1 * m.spec_width()] as int == g_post[c.0 + c.1
                * m.spec_width()] as int + heur(c, end),
        forall|c: (u32, u32), n: (u32, u32)|
            #![trigger closed_at(closed, m.spec_width(), c), dist1(c, n)]
            m.in_bounds(c.0 as int, c.1 as int) && closed_at(closed, m.spec_width(), c) && c
                != current && m.is_open(n.0 as int, n.1 as int) && dist1(c, n) && !closed_at(
                closed,
                m.spec_width(),
                n,
            ) ==> g_post[n.0 + n.1 * m.spec_width()] as int <= g_post[c.0 + c.1
                * m.spec_width()] as int + 1,
        forall|c: (u32, u32)|
            m.in_bounds(c.0 as int, c.1 as int) && #[trigger] closed_at(closed, m.spec_width(), c)
                ==> g_post[c.0 + c.1 * m.spec_width()] == g_entry[c.0 + c.1 * m.spec_width()],
        g_post[t.0 + t.1 * m.spec_width()] as int <= gc as int + 1,
{
    let w = m.spec_width();
    let h = m.spec_height();
    crate::maze::lemma_coord_index_bound(t.0 as int, t.1 as int, w as int, h as int);
    lemma_heur_is(t, end, ht as int);
    assert forall|c: (u32, u32)|
        m.in_bounds(c.0 as int, c.1 as int) && c != t implies g_post[#[trigger] (c.0 + c.1 * w)]
        == g_pre[c.0 + c.1 * w] && post[c.0 + c.1 * w] == pre[c.0 + c.1 * w] && f_post[c.0 + c.1
        * w] == f_pre[c.0 + c.1 * w] by {
        crate::maze::lemma_coord_index_bound(c.0 as int, c.1 as int, w as int, h as int);
        crate::maze::lemma_coord_index_injective(
            c.0 as int,
            c.1 as int,
            t.0 as int,
            t.1 as int,
            w as int,
            h as int,
        );
    }
    assert forall|c: (u32, u32)|
        m.in_bounds(c.0 as int, c.1 as int) && #[trigger] disc(post, w, c) implies measure_post[c]
        == g_post[c.0 + c.1 * w] && g_post[c.0 + c.1 * w] as int <= crate::maze::count_trues(
        closed,
    ) by {
        if c != t {
            assert(disc(pre, w, c));
        }
    }
    assert forall|c: (u32, u32)|
        m.in_bounds(c.0 as int, c.1 as int) && !#[trigger] disc(post, w, c) implies g_post[c.0
        + c.1 * w] == u64::MAX by {
        assert(c != t);
        assert(!disc(pre, w, c));
    }
    assert forall|c: (u32, u32)|
        m.in_bounds(c.0 as int, c.1 as int) && #[trigger] disc(post, w, c) implies f_post[c.0
        + c.1 * w] as int == g_post[c.0 + c.1 * w] as int + heur(c, end) by {
        if c != t {
            assert(disc(pre, w, c));
        }
    }
    assert forall|c: (u32, u32), n: (u32, u32)|
        #![trigger closed_at(closed, w, c), dist1(c, n)]
        m.in_bounds(c.0 as int, c.1 as int) && closed_at(closed, w, c) && c != current
            && m.is_open(n.0 as int, n.1 as int) && dist1(c, n) && !closed_at(
            closed,
            w,
            n,
        ) implies g_post[n.0 + n.1 * w] as int <= g_post[c.0 + c.1 * w] as int + 1 by {
        assert(c != t);
        if n == t {
            assert(g_pre[t.0 + t.1 * w] as int <= g_pre[c.0 + c.1 * w] as int + 1);
        }
    }
    assert forall|c: (u32, u32)|
        m.in_bounds(c.0 as int, c.1 as int) && #[trigger] closed_at(closed, w, c) implies g_post[c.0
        + c.1 * w] == g_entry[c.0 + c.1 * w] by {
        assert(c != t);
    }
}


/// The cost tables of one expansion round, bundled: the start costs
/// nothing; discovered costs mirror the ghost measure and stay below
/// the closed count; undiscovered entries are untouched; f-scores are
/// cost plus heuristic; closed coordinates other than the one under
/// expansion bound their unclosed neighbours by one step and keep the
/// costs they entered the round with.
#[verifier::opaque]
pub(crate) open spec fn cost_inv(
    m: Maze,
    parent: Seq<Option<(u32, u32)>>,
    g: Seq<u64>,
    f: Seq<u64>,
    measure: Map<(u32, u32), nat>,
    closed: Seq<bool>,
    g_entry: Seq<u64>,
    start: (u32, u32),
    end: (u32, u32),
    current: (u32, u32),
) -> bool {
    &&& g[start.0 + start.1 * m.spec_width()] == 0
    &&& forall|c: (u32, u32)|
        m.in_bounds(c.0 as int, c.1 as int) && #[trigger] disc(parent, m.spec_width(), c)
            ==> measure[c] == g[c.0 + c.1 * m.spec_width()] && g[c.0 + c.1
            * m.spec_width()] as int <= crate::maze::count_trues(closed)
    &&& forall|c: (u32, u32)|
        m.in_bounds(c.0 as int, c.1 as int) && !#[trigger] disc(parent, m.spec_width(), c)
            ==> g[c.0 + c.1 * m.spec_width()] == u64::MAX
    &&& forall|c: (u32, u32)|
        m.in_bounds(c.0 as int, c.1 as int) && #[trigger] disc(parent, m.spec_width(), c)
            ==> f[c.0 + c.1 * m.spec_width()] as int == g[c.0 + c.1 * m.spec_width()] as int
            + heur(c, end)
    &&& forall|c: (u32, u32), n: (u32, u32)|
        #![trigger closed_at(closed, m.spec_width(), c), dist1(c, n)]
        m.in_bounds(c.0 as int, c.1 as int) && closed_at(closed, m.spec_width(), c) && c
            != current && m.is_open(n.0 as int, n.1 as int) && dist1(c, n) && !closed_at(
            closed,
            m.spec_width(),
            n,
        ) ==> g[n.0 + n.1 * m.spec_width()] as int <= g[c.0 + c.1 * m.spec_width()] as int + 1
    &&& forall|c: (u32, u32)|
        m.in_bounds(c.0 as int, c.1 as int) && #[trigger] closed_at(closed, m.spec_width(), c)
            ==> g[c.0 + c.1 * m.spec_width()] == g_entry[c.0 + c.1 * m.spec_width()]
}

/// Facts about the round compose across one handled neighbour: the
/// prefix of handled neighbours stays discovered and cheap, the open
/// set keeps its prefix, and discovery is monotone.
proof fn lemma_after_relax(
    m: Maze,
    parent_entry: Seq<Option<(u32, u32)>>,
    parent_before: Seq<Option<(u32, u32)>>,
    parent_now: Seq<Option<(u32, u32)>>,
    g_before: Seq<u64>,
    g_now: Seq<u64>,
    closed: Seq<bool>,
    open_mid: Seq<(u32, u32)>,
    open_before: Seq<(u32, u32)>,
    open_now: Seq<(u32, u32)>,
    neighbours: Seq<(u32, u32)>,
    j: int,
    current: (u32, u32),
    t: (u32, u32),
    gc: u64,
)
    requires
        m.wf(),
        0 <= j < neighbours.len(),
        neighbours[j] == t,
        maze_nbr_facts(m, neighbours, current),
        forall|jj: int| 0 <= jj < j ==> disc(parent_before, m.spec_width(), #[trigger] neighbours[jj]),
        forall|jj: int|
            0 <= jj < j && !closed_at(closed, m.spec_width(), #[trigger] neighbours[jj])
                ==> g_before[neighbours[jj].0 + neighbours[jj].1 * m.spec_width()] as int
                <= gc as int + 1,
        forall|c: (u32, u32)|
            m.in_bounds(c.0 as int, c.1 as int) && #[trigger] disc(parent_entry, m.spec_width(), c)
                ==> disc(parent_before, m.spec_width(), c),
        forall|c: (u32, u32)|
            m.in_bounds(c.0 as int, c.1 as int) && #[trigger] disc(
                parent_before,
                m.spec_width(),
                c,
            ) ==> disc(parent_now, m.spec_width(), c),
        forall|n: (u32, u32)|
            m.is_open(n.0 as int, n.1 as int) && #[trigger] dist1(current, n) && n != t ==> g_now[n.0
                + n.1 * m.spec_width()] == g_before[n.0 + n.1 * m.spec_width()],
        !closed_at(closed, m.spec_width(), t) ==> disc(parent_now, m.spec_width(), t) && g_now[t.0
            + t.1 * m.spec_width()] as int <= gc as int + 1,
        closed_at(closed, m.spec_width(), t) ==> disc(parent_now, m.spec_width(), t),
        forall|i: int| 0 <= i < open_mid.len() ==> open_before[i] == #[trigger] open_mid[i],
        open_mid.len() <= open_before.len(),
        forall|i: int| 0 <= i < open_before.len() ==> #[trigger] open_now[i] == open_before[i],
        open_before.len() <= open_now.len(),
    ensures
        forall|jj: int| 0 <= jj < j + 1 ==> disc(parent_now, m.spec_width(), #[trigger] neighbours[jj]),
        forall|jj: int|
            0 <= jj < j + 1 && !closed_at(closed, m.spec_width(), #[trigger] neighbours[jj])
                ==> g_now[neighbours[jj].0 + neighbours[jj].1 * m.spec_width()] as int <= gc as int
                + 1,
        forall|c: (u32, u32)|
            m.in_bounds(c.0 as int, c.1 as int) && #[trigger] disc(parent_entry, m.spec_width(), c)
                ==> disc(parent_now, m.spec_width(), c),
        forall|i: int| 0 <= i < open_mid.len() ==> #[trigger] open_now[i] == open_mid[i],
{
    let w = m.spec_width();
    assert forall|jj: int| 0 <= jj < j + 1 implies disc(
        parent_now,
        w,
        #[trigger] neighbours[jj],
    ) by {
        if jj < j {
            assert(disc(parent_before, w, neighbours[jj]));
        }
    }
    assert forall|jj: int|
        0 <= jj < j + 1 && !closed_at(closed, w, #[trigger] neighbours[jj]) implies g_now[
        neighbours[jj].0 + neighbours[jj].1 * w] as int <= gc as int + 1 by {
        if neighbours[jj] != t {
            assert(m.is_open(neighbours[jj].0 as int, neighbours[jj].1 as int) && dist1(
                current,
                neighbours[jj],
            ));
            assert(g_now[neighbours[jj].0 + neighbours[jj].1 * w] == g_before[neighbours[jj].0
                + neighbours[jj].1 * w]);
        }
    }
}

/// The listed neighbours of the coordinate under expansion are open
/// and one step away.
pub(crate) open spec fn maze_nbr_facts(
    m: Maze,
    neighbours: Seq<(u32, u32)>,
    current: (u32, u32),
) -> bool {
    forall|i: int|
        0 <= i < neighbours.len() ==> m.is_open(#[trigger] neighbours[i].0 as int, neighbours[i].1 as int)
            && dist1(current, neighbours[i])
}

/// Handles one neighbour of the coordinate under expansion: skips it
/// when closed, else makes sure it is on the open set with a cost at
/// most one past the expanded coordinate's, relaxing its entry when
/// that improves it.
#[verifier::rlimit(100)]
fn relax_neighbour(
    maze: &Maze,
    parent: &mut Vec<Option<(u32, u32)>>,
    g_score: &mut Vec<u64>,
    f_score: &mut Vec<u64>,
    open_set: &mut Vec<(u32, u32)>,
    closed: &Vec<bool>,
    current: (u32, u32),
    end: (u32, u32),
    start: (u32, u32),
    t: (u32, u32),
    gc: u64,
    Ghost(measure_in): Ghost<Map<(u32, u32), nat>>,
    Ghost(g_entry): Ghost<Seq<u64>>,
) -> (measure_out: Ghost<Map<(u32, u32), nat>>)
    requires
        g_entry.len() == maze.spec_height() * maze.spec_width(),
        maze.is_open(t.0 as int, t.1 as int),
        dist1(current, t),
        maze.wf(),
        old(parent)@.len() == maze.spec_height() * maze.spec_width(),
        closed@.len() == maze.spec_height() * maze.spec_width(),
        old(g_score)@.len() == maze.spec_height() * maze.spec_width(),
        old(f_score)@.len() == maze.spec_height() * maze.spec_width(),
        count_somes(old(parent)@) <= old(parent)@.len(),
        parent_wf(*maze, old(parent)@, measure_in, start),
        maze.in_bounds(current.0 as int, current.1 as int),
        disc(old(parent)@, maze.spec_width(), current),
        current != end,
        closed_at(closed@, maze.spec_width(), current),
        crate::maze::count_trues(closed@) <= closed@.len(),
        gc == old(g_score)@[current.0 + current.1 * maze.spec_width()],
        (gc as int) < crate::maze::count_trues(closed@),
        maze.in_bounds(start.0 as int, start.1 as int),
        maze.is_open(start.0 as int, start.1 as int),
        forall|i: int|
            0 <= i < old(open_set)@.len() ==> {
                &&& maze.in_bounds(#[trigger] old(open_set)@[i].0 as int, old(open_set)@[i].1 as int)
                &&& disc(old(parent)@, maze.spec_width(), old(open_set)@[i])
                &&& !closed_at(closed@, maze.spec_width(), old(open_set)@[i])
            },
        forall|c: (u32, u32)|
            maze.in_bounds(c.0 as int, c.1 as int) && #[trigger] disc(old(parent)@, maze.spec_width(), c)
                && !closed_at(closed@, maze.spec_width(), c) ==> old(open_set)@.contains(c),
        forall|c: (u32, u32)|
            maze.in_bounds(c.0 as int, c.1 as int) && #[trigger] closed_at(
                closed@,
                maze.spec_width(),
                c,
            ) && c != current ==> {
                &&& disc(old(parent)@, maze.spec_width(), c)
                &&& expanded(*maze, old(parent)@, c)
                &&& c != end
            },
        old(open_set)@.no_duplicates(),
        cost_inv(*maze, old(parent)@, old(g_score)@, old(f_score)@, measure_in, closed@, g_entry, start, end, current),
    ensures
        maze.wf(),
        final(parent)@.len() == maze.spec_height() * maze.spec_width(),
        closed@.len() == maze.spec_height() * maze.spec_width(),
        final(g_score)@.len() == maze.spec_height() * maze.spec_width(),
        final(f_score)@.len() == maze.spec_height() * maze.spec_width(),
        count_somes(final(parent)@) <= final(parent)@.len(),
        parent_wf(*maze, final(parent)@, measure_out@, start),
        maze.in_bounds(current.0 as int, current.1 as int),
        disc(final(parent)@, maze.spec_width(), current),
        current != end,
        closed_at(closed@, maze.spec_width(), current),
        crate::maze::count_trues(closed@) <= closed@.len(),
        gc == final(g_score)@[current.0 + current.1 * maze.spec_width()],
        (gc as int) < crate::maze::count_trues(closed@),
        maze.in_bounds(start.0 as int, start.1 as int),
        maze.is_open(start.0 as int, start.1 as int),
        forall|i: int|
            0 <= i < final(open_set)@.len() ==> {
                &&& maze.in_bounds(#[trigger] final(open_set)@[i].0 as int, final(open_set)@[i].1 as int)
                &&& disc(final(parent)@, maze.spec_width(), final(open_set)@[i])
                &&& !closed_at(closed@, maze.spec_width(), final(open_set)@[i])
            },
        forall|c: (u32, u32)|
            maze.in_bounds(c.0 as int, c.1 as int) && #[trigger] disc(final(parent)@, maze.spec_width(), c)
                && !closed_at(closed@, maze.spec_width(), c) ==> final(open_set)@.contains(c),
        forall|c: (u32, u32)|
            maze.in_bounds(c.0 as int, c.1 as int) && #[trigger] closed_at(
                closed@,
                maze.spec_width(),
                c,
            ) && c != current ==> {
                &&& disc(final(parent)@, maze.spec_width(), c)
                &&& expanded(*maze, final(parent)@, c)
                &&& c != end
            },
        final(open_set)@.no_duplicates(),
        cost_inv(*maze, final(parent)@, final(g_score)@, final(f_score)@, measure_out@, closed@, g_entry, start, end, current),
        forall|c: (u32, u32)|
            maze.in_bounds(c.0 as int, c.1 as int) && #[trigger] disc(
                old(parent)@,
                maze.spec_width(),
                c,
            ) ==> disc(final(parent)@, maze.spec_width(), c),
        forall|n: (u32, u32)|
            maze.is_open(n.0 as int, n.1 as int) && #[trigger] dist1(current, n) && n != t
                ==> final(g_score)@[n.0 + n.1 * maze.spec_width()] == old(g_score)@[n.0 + n.1
                * maze.spec_width()],
        final(open_set)@.len() >= old(open_set)@.len(),
        forall|i: int| 0 <= i < old(open_set)@.len() ==> final(open_set)@[i] == old(open_set)@[i],
        final(open_set)@.len() - old(open_set)@.len() == count_somes(final(parent)@) - count_somes(
            old(parent)@,
        ),
        count_somes(final(parent)@) >= count_somes(old(parent)@),
        !closed_at(closed@, maze.spec_width(), t) ==> disc(final(parent)@, maze.spec_width(), t)
            && final(g_score)@[t.0 + t.1 * maze.spec_width()] as int <= gc as int + 1,
        closed_at(closed@, maze.spec_width(), t) ==> disc(final(parent)@, maze.spec_width(), t),
{
    let w = maze.width();
    let h = maze.height();
    let ghost mut measure: Map<(u32, u32), nat> = measure_in;
    proof {
        reveal(cost_inv);
        crate::maze::lemma_coord_index_bound(t.0 as int, t.1 as int, w as int, h as int);
        crate::maze::lemma_coord_index_bound(
            current.0 as int,
            current.1 as int,
            w as int,
            h as int,
        );
    }
    let ti = t.0 as usize + t.1 as usize * w as usize;
    if !closed[ti] {
        let ghost open_before_push = open_set@;
        let was_in = open_set_contains(open_set, t);
        if !was_in {
            open_set.push(t);
            proof {
                assert(open_set@[open_set@.len() - 1] == t);
                assert forall|i: int|
                    0 <= i < open_before_push.len() implies open_set@[i]
                    == open_before_push[i] by {}
                assert(!disc(parent@, w, t)) by {
                    if disc(parent@, w, t) {
                        assert(open_before_push.contains(t));
                    }
                }
            }
        }
        let score = gc + 1;
        if score < g_score[ti] {
            let ghost pre = parent@;
            let ghost measure_pre = measure;
            let ghost g_pre = g_score@;
            proof {
                assert(t != current);
                assert(t != start) by {
                    if t == start {
                        assert(measure[start] == g_score@[start.0 + start.1 * w]);
                    }
                }
                if parent@[ti as int] is None {
                    lemma_count_somes_update(parent@, ti as int, current);
                }
                measure = measure.insert(t, score as nat);
            }
            let ghost f_pre = f_score@;
            parent.set(ti, Some(current));
            g_score.set(ti, score);
            let ht = heuristic_cost(t, end);
            f_score.set(ti, score + ht);
            proof {
                lemma_count_somes_le(parent@);
                if disc(pre, w, t) {
                    assert(parent@ =~= pre.update(ti as int, Some(current)));
                    assert(count_somes(parent@) == count_somes(pre)) by {
                        lemma_count_somes_same(pre, parent@, ti as int);
                    }
                }
                lemma_relax(
                    *maze,
                    pre,
                    parent@,
                    measure_pre,
                    measure,
                    score as nat,
                    start,
                    current,
                    t,
                );
                lemma_relax_extras(
                    *maze,
                    pre,
                    parent@,
                    g_pre,
                    g_score@,
                    f_pre,
                    f_score@,
                    measure_pre,
                    measure,
                    closed@,
                    g_entry,
                    current,
                    t,
                    end,
                    gc,
                    score,
                    ht,
                    (score + ht) as u64,
                );
            }
        } else {
            proof {
                assert(g_score@[t.0 + t.1 * w] as int <= gc as int + 1);
            }
        }
    }
    proof {
        if closed_at(closed@, w, t) {
            assert(disc(parent@, w, t));
        }
    }
    Ghost(measure)
}

/// Expands one closed coordinate: discovers or relaxes each of its
/// open neighbours, growing the open set by exactly the number of
/// fresh discoveries.
#[verifier::rlimit(100)]
fn expand_neighbours(
    maze: &Maze,
    parent: &mut Vec<Option<(u32, u32)>>,
    g_score: &mut Vec<u64>,
    f_score: &mut Vec<u64>,
    open_set: &mut Vec<(u32, u32)>,
    closed: &Vec<bool>,
    current: (u32, u32),
    end: (u32, u32),
    start: (u32, u32),
    Ghost(measure_in): Ghost<Map<(u32, u32), nat>>,
) -> (measure_out: Ghost<Map<(u32, u32), nat>>)
    requires
        maze.wf(),
        maze.is_open(start.0 as int, start.1 as int),
        old(parent)@.len() == maze.spec_height() * maze.spec_width(),
        closed@.len() == maze.spec_height() * maze.spec_width(),
        old(g_score)@.len() == maze.spec_height() * maze.spec_width(),
        old(f_score)@.len() == maze.spec_height() * maze.spec_width(),
        count_somes(old(parent)@) <= old(parent)@.len(),
        parent_wf(*maze, old(parent)@, measure_in, start),
        maze.in_bounds(current.0 as int, current.1 as int),
        disc(old(parent)@, maze.spec_width(), current),
        current != end,
        closed_at(closed@, maze.spec_width(), current),
        crate::maze::count_trues(closed@) <= closed@.len(),
        (old(g_score)@[current.0 + current.1 * maze.spec_width()] as int)
            < crate::maze::count_trues(closed@),
        forall|c: (u32, u32)|
            maze.in_bounds(c.0 as int, c.1 as int) && #[trigger] disc(
                old(parent)@,
                maze.spec_width(),
                c,
            ) ==> measure_in[c] == old(g_score)@[c.0 + c.1 * maze.spec_width()]
                && old(g_score)@[c.0 + c.1 * maze.spec_width()] as int
                <= crate::maze::count_trues(closed@),
        forall|c: (u32, u32)|
            maze.in_bounds(c.0 as int, c.1 as int) && !#[trigger] disc(
                old(parent)@,
                maze.spec_width(),
                c,
            ) ==> old(g_score)@[c.0 + c.1 * maze.spec_width()] == u64::MAX,
        forall|i: int|
            0 <= i < old(open_set)@.len() ==> {
                &&& maze.in_bounds(
                    #[trigger] old(open_set)@[i].0 as int,
                    old(open_set)@[i].1 as int,
                )
                &&& disc(old(parent)@, maze.spec_width(), old(open_set)@[i])
                &&& !closed_at(closed@, maze.spec_width(), old(open_set)@[i])
            },
        forall|c: (u32, u32)|
            maze.in_bounds(c.0 as int, c.1 as int) && #[trigger] disc(
                old(parent)@,
                maze.spec_width(),
                c,
            ) && !closed_at(closed@, maze.spec_width(), c) ==> old(open_set)@.contains(c),
        forall|c: (u32, u32)|
            maze.in_bounds(c.0 as int, c.1 as int) && #[trigger] closed_at(
                closed@,
                maze.spec_width(),
                c,
            ) && c != current ==> {
                &&& disc(old(parent)@, maze.spec_width(), c)
                &&& expanded(*maze, old(parent)@, c)
                &&& c != end
            },
        old(open_set)@.no_duplicates(),
        maze.in_bounds(start.0 as int, start.1 as int),
        old(g_score)@[start.0 + start.1 * maze.spec_width()] == 0,
        forall|c: (u32, u32)|
            maze.in_bounds(c.0 as int, c.1 as int) && #[trigger] disc(
                old(parent)@,
                maze.spec_width(),
                c,
            ) ==> old(f_score)@[c.0 + c.1 * maze.spec_width()] as int == old(g_score)@[c.0 + c.1
                * maze.spec_width()] as int + heur(c, end),
        forall|c: (u32, u32), n: (u32, u32)|
            #![trigger closed_at(closed@, maze.spec_width(), c), dist1(c, n)]
            maze.in_bounds(c.0 as int, c.1 as int) && closed_at(closed@, maze.spec_width(), c) && c
                != current && maze.is_open(n.0 as int, n.1 as int) && dist1(c, n) && !closed_at(
                closed@,
                maze.spec_width(),
                n,
            ) ==> old(g_score)@[n.0 + n.1 * maze.spec_width()] as int <= old(g_score)@[c.0 + c.1
                * maze.spec_width()] as int + 1,
    ensures
        final(parent)@.len() == old(parent)@.len(),
        final(g_score)@.len() == old(g_score)@.len(),
        final(f_score)@.len() == old(f_score)@.len(),
        count_somes(final(parent)@) <= final(parent)@.len(),
        parent_wf(*maze, final(parent)@, measure_out@, start),
        forall|c: (u32, u32)|
            maze.in_bounds(c.0 as int, c.1 as int) && #[trigger] disc(
                old(parent)@,
                maze.spec_width(),
                c,
            ) ==> disc(final(parent)@, maze.spec_width(), c),
        expanded(*maze, final(parent)@, current),
        final(open_set)@.len() >= old(open_set)@.len(),
        final(open_set)@.len() - old(open_set)@.len() == count_somes(final(parent)@)
            - count_somes(old(parent)@),
        count_somes(final(parent)@) >= count_somes(old(parent)@),
        forall|i: int|
            0 <= i < final(open_set)@.len() ==> {
                &&& maze.in_bounds(
                    #[trigger] final(open_set)@[i].0 as int,
                    final(open_set)@[i].1 as int,
                )
                &&& disc(final(parent)@, maze.spec_width(), final(open_set)@[i])
                &&& !closed_at(closed@, maze.spec_width(), final(open_set)@[i])
            },
        forall|c: (u32, u32)|
            maze.in_bounds(c.0 as int, c.1 as int) && #[trigger] disc(
                final(parent)@,
                maze.spec_width(),
                c,
            ) && !closed_at(closed@, maze.spec_width(), c) ==> final(open_set)@.contains(c),
        forall|c: (u32, u32)|
            maze.in_bounds(c.0 as int, c.1 as int) && #[trigger] closed_at(
                closed@,
                maze.spec_width(),
                c,
            ) && c != current ==> {
                &&& disc(final(parent)@, maze.spec_width(), c)
                &&& expanded(*maze, final(parent)@, c)
                &&& c != end
            },
        forall|c: (u32, u32)|
            maze.in_bounds(c.0 as int, c.1 as int) && #[trigger] disc(
                final(parent)@,
                maze.spec_width(),
                c,
            ) ==> measure_out@[c] == final(g_score)@[c.0 + c.1 * maze.spec_width()]
                && final(g_score)@[c.0 + c.1 * maze.spec_width()] as int
                <= crate::maze::count_trues(closed@),
        forall|c: (u32, u32)|
            maze.in_bounds(c.0 as int, c.1 as int) && !#[trigger] disc(
                final(parent)@,
                maze.spec_width(),
                c,
            ) ==> final(g_score)@[c.0 + c.1 * maze.spec_width()] == u64::MAX,
        final(open_set)@.no_duplicates(),
        final(g_score)@[start.0 + start.1 * maze.spec_width()] == 0,
        forall|c: (u32, u32)|
            maze.in_bounds(c.0 as int, c.1 as int) && #[trigger] closed_at(
                closed@,
                maze.spec_width(),
                c,
            ) ==> final(g_score)@[c.0 + c.1 * maze.spec_width()] == old(g_score)@[c.0 + c.1
                * maze.spec_width()],
        forall|c: (u32, u32)|
            maze.in_bounds(c.0 as int, c.1 as int) && #[trigger] disc(
                final(parent)@,
                maze.spec_width(),
                c,
            ) ==> final(f_score)@[c.0 + c.1 * maze.spec_width()] as int == final(g_score)@[c.0
                + c.1 * maze.spec_width()] as int + heur(c, end),
        forall|c: (u32, u32), n: (u32, u32)|
            #![trigger closed_at(closed@, maze.spec_width(), c), dist1(c, n)]
            maze.in_bounds(c.0 as int, c.1 as int) && closed_at(closed@, maze.spec_width(), c)
                && maze.is_open(n.0 as int, n.1 as int) && dist1(c, n) && !closed_at(
                closed@,
                maze.spec_width(),
                n,
            ) ==> final(g_score)@[n.0 + n.1 * maze.spec_width()] as int <= final(g_score)@[c.0
                + c.1 * maze.spec_width()] as int + 1,
{
    let w = maze.width();
    let h = maze.height();
    let ghost mut measure: Map<(u32, u32), nat> = measure_in;
    let ghost parent_entry = parent@;
    let ghost g_at_entry = g_score@;
    let ghost open_mid = open_set@;
    let neighbours = get_node_neighbours(current, maze);
    proof {
        crate::maze::lemma_coord_index_bound(
            current.0 as int,
            current.1 as int,
            w as int,
            h as int,
        );
    }
    let ci = current.0 as usize + current.1 as usize * w as usize;
    let gc = g_score[ci];
    proof {
        assert(cost_inv(
            *maze,
            parent@,
            g_score@,
            f_score@,
            measure,
            closed@,
            g_at_entry,
            start,
            end,
            current,
        )) by {
            reveal(cost_inv);
        }
    }
    let mut j: usize = 0;
    while j < neighbours.len()
        invariant
            maze.wf(),
            maze.spec_width() == w,
            maze.spec_height() == h,
            maze.is_open(start.0 as int, start.1 as int),
            parent@.len() == h * w,
            closed@.len() == h * w,
            g_score@.len() == h * w,
            f_score@.len() == h * w,
            count_somes(parent@) <= parent@.len(),
            parent_wf(*maze, parent@, measure, start),
            j <= neighbours@.len(),
            maze.in_bounds(current.0 as int, current.1 as int),
            disc(parent@, w, current),
            current != end,
            closed_at(closed@, w, current),
            gc == g_score@[current.0 + current.1 * w],
            (gc as int) < crate::maze::count_trues(closed@),
            crate::maze::count_trues(closed@) <= closed@.len(),
            maze_nbr_facts(*maze, neighbours@, current),
            forall|i: int| 0 <= i < j ==> disc(parent@, w, #[trigger] neighbours@[i]),
            forall|c: (u32, u32)|
                maze.in_bounds(c.0 as int, c.1 as int) && #[trigger] disc(parent_entry, w, c)
                    ==> disc(parent@, w, c),
            open_mid.len() <= open_set@.len(),
            open_set@.len() - open_mid.len() == count_somes(parent@) - count_somes(parent_entry),
            forall|i: int| 0 <= i < open_mid.len() ==> open_set@[i] == open_mid[i],
            forall|i: int|
                0 <= i < open_set@.len() ==> {
                    &&& maze.in_bounds(#[trigger] open_set@[i].0 as int, open_set@[i].1 as int)
                    &&& disc(parent@, w, open_set@[i])
                    &&& !closed_at(closed@, w, open_set@[i])
                },
            forall|c: (u32, u32)|
                maze.in_bounds(c.0 as int, c.1 as int) && #[trigger] disc(parent@, w, c)
                    && !closed_at(closed@, w, c) ==> open_set@.contains(c),
            forall|c: (u32, u32)|
                maze.in_bounds(c.0 as int, c.1 as int) && #[trigger] closed_at(closed@, w, c) && c
                    != current ==> {
                    &&& disc(parent@, w, c)
                    &&& expanded(*maze, parent@, c)
                    &&& c != end
                },
            open_set@.no_duplicates(),
            maze.in_bounds(start.0 as int, start.1 as int),
            maze.is_open(start.0 as int, start.1 as int),
            g_at_entry.len() == h * w,
            cost_inv(
                *maze,
                parent@,
                g_score@,
                f_score@,
                measure,
                closed@,
                g_at_entry,
                start,
                end,
                current,
            ),
            forall|jj: int|
                0 <= jj < j && !closed_at(closed@, w, #[trigger] neighbours@[jj])
                    ==> g_score@[neighbours@[jj].0 + neighbours@[jj].1 * w] as int <= gc as int
                    + 1,
        decreases neighbours@.len() - j,
    {
        let t = neighbours[j];
        let ghost parent_before = parent@;
        let ghost g_before = g_score@;
        let ghost open_before = open_set@;
        let gm2 = relax_neighbour(
            maze,
            parent,
            g_score,
            f_score,
            open_set,
            closed,
            current,
            end,
            start,
            t,
            gc,
            Ghost(measure),
            Ghost(g_at_entry),
        );
        proof {
            measure = gm2@;
            lemma_after_relax(
                *maze,
                parent_entry,
                parent_before,
                parent@,
                g_before,
                g_score@,
                closed@,
                open_mid,
                open_before,
                open_set@,
                neighbours@,
                j as int,
                current,
                t,
                gc,
            );
        }
        j = j + 1;
    }
    proof {
        reveal(cost_inv);
        assert forall|n: (u32, u32)|
            maze.is_open(n.0 as int, n.1 as int) && dist1(current, n) implies disc(
            parent@,
            w,
            n,
        ) by {
            let idx = choose|idx: int| 0 <= idx < neighbours@.len() && neighbours@[idx] == n;
            assert(disc(parent@, w, neighbours@[idx]));
        }
        assert forall|c: (u32, u32)|
            maze.in_bounds(c.0 as int, c.1 as int) && #[trigger] closed_at(closed@, w, c) && c
                != current implies {
            &&& disc(parent@, w, c)
            &&& expanded(*maze, parent@, c)
            &&& c != end
        } by {
            assert forall|n: (u32, u32)|
                maze.is_open(n.0 as int, n.1 as int) && dist1(c, n) implies disc(
                parent@,
                w,
                n,
            ) by {
                assert(disc(parent_entry, w, n));
            }
        }
        assert forall|c: (u32, u32), n: (u32, u32)|
            #![trigger closed_at(closed@, w, c), dist1(c, n)]
            maze.in_bounds(c.0 as int, c.1 as int) && closed_at(closed@, w, c) && maze.is_open(
                n.0 as int,
                n.1 as int,
            ) && dist1(c, n) && !closed_at(closed@, w, n) implies g_score@[n.0 + n.1 * w] as int
            <= g_score@[c.0 + c.1 * w] as int + 1 by {
            if c == current {
                let jj = choose|jj: int| 0 <= jj < neighbours@.len() && neighbours@[jj] == n;
                assert(g_score@[neighbours@[jj].0 + neighbours@[jj].1 * w] as int <= gc as int
                    + 1);
            }
        }
    }
    Ghost(measure)
}

/// Closing the freshly dequeued coordinate keeps every bookkeeping
/// fact of the search: the open set loses exactly that coordinate,
/// and every stored cost stays below the closed count.
#[verifier::rlimit(100)]
proof fn lemma_after_close(
    m: Maze,
    parent: Seq<Option<(u32, u32)>>,
    closed_entry: Seq<bool>,
    closed: Seq<bool>,
    g: Seq<u64>,
    open_entry: Seq<(u32, u32)>,
    open_now: Seq<(u32, u32)>,
    li: int,
    current: (u32, u32),
    start: (u32, u32),
)
    requires
        forall|q: Seq<(u32, u32)>|
            is_open_path(m, q) && q.first() == start && q.last() == current ==> q.len() > g[current.0
                + current.1 * m.spec_width()] as int,
        forall|c: (u32, u32)|
            m.in_bounds(c.0 as int, c.1 as int) && #[trigger] closed_at(
                closed_entry,
                m.spec_width(),
                c,
            ) ==> g_minimal(m, g[c.0 + c.1 * m.spec_width()] as int, start, c),
        forall|c: (u32, u32), n: (u32, u32)|
            #![trigger closed_at(closed_entry, m.spec_width(), c), dist1(c, n)]
            m.in_bounds(c.0 as int, c.1 as int) && closed_at(closed_entry, m.spec_width(), c)
                && m.is_open(n.0 as int, n.1 as int) && dist1(c, n) && !closed_at(
                closed_entry,
                m.spec_width(),
                n,
            ) ==> g[n.0 + n.1 * m.spec_width()] as int <= g[c.0 + c.1 * m.spec_width()] as int
                + 1,
        m.wf(),
        parent.len() == m.spec_height() * m.spec_width(),
        closed_entry.len() == m.spec_height() * m.spec_width(),
        g.len() == m.spec_height() * m.spec_width(),
        0 <= li < open_entry.len(),
        open_entry[li] == current,
        open_now == open_entry.remove(li),
        open_entry.no_duplicates(),
        forall|i: int|
            0 <= i < open_entry.len() ==> {
                &&& m.in_bounds(#[trigger] open_entry[i].0 as int, open_entry[i].1 as int)
                &&& disc(parent, m.spec_width(), open_entry[i])
                &&& !closed_at(closed_entry, m.spec_width(), open_entry[i])
            },
        forall|c: (u32, u32)|
            m.in_bounds(c.0 as int, c.1 as int) && #[trigger] disc(parent, m.spec_width(), c)
                && !closed_at(closed_entry, m.spec_width(), c) ==> open_entry.contains(c),
        forall|c: (u32, u32)|
            m.in_bounds(c.0 as int, c.1 as int) && #[trigger] disc(parent, m.spec_width(), c)
                ==> g[c.0 + c.1 * m.spec_width()] as int <= crate::maze::count_trues(closed_entry),
        closed == closed_entry.update(current.0 + current.1 * m.spec_width(), true),
        m.in_bounds(current.0 as int, current.1 as int),
        crate::maze::count_trues(closed) == crate::maze::count_trues(closed_entry) + 1,
    ensures
        crate::maze::count_trues(closed) <= closed.len(),
        open_now.no_duplicates(),
        forall|i: int|
            0 <= i < open_now.len() ==> {
                &&& m.in_bounds(#[trigger] open_now[i].0 as int, open_now[i].1 as int)
                &&& disc(parent, m.spec_width(), open_now[i])
                &&& !closed_at(closed, m.spec_width(), open_now[i])
            },
        forall|c: (u32, u32)|
            m.in_bounds(c.0 as int, c.1 as int) && #[trigger] disc(parent, m.spec_width(), c)
                && !closed_at(closed, m.spec_width(), c) ==> open_now.contains(c),
        forall|c: (u32, u32)|
            m.in_bounds(c.0 as int, c.1 as int) && #[trigger] disc(parent, m.spec_width(), c)
                ==> g[c.0 + c.1 * m.spec_width()] as int <= crate::maze::count_trues(closed),
        (g[current.0 + current.1 * m.spec_width()] as int) < crate::maze::count_trues(closed),
        forall|c: (u32, u32)|
            m.in_bounds(c.0 as int, c.1 as int) && #[trigger] closed_at(closed, m.spec_width(), c)
                && c != current ==> closed_at(closed_entry, m.spec_width(), c),
        closed_at(closed, m.spec_width(), current),
        forall|c: (u32, u32)|
            m.in_bounds(c.0 as int, c.1 as int) && #[trigger] closed_at(closed, m.spec_width(), c)
                ==> g_minimal(m, g[c.0 + c.1 * m.spec_width()] as int, start, c),
        forall|c: (u32, u32), n: (u32, u32)|
            #![trigger closed_at(closed, m.spec_width(), c), dist1(c, n)]
            m.in_bounds(c.0 as int, c.1 as int) && closed_at(closed, m.spec_width(), c) && c
                != current && m.is_open(n.0 as int, n.1 as int) && dist1(c, n) && !closed_at(
                closed,
                m.spec_width(),
                n,
            ) ==> g[n.0 + n.1 * m.spec_width()] as int <= g[c.0 + c.1 * m.spec_width()] as int
                + 1,
{
    let w = m.spec_width();
    let h = m.spec_height();
    crate::maze::lemma_count_trues_le(closed);
    crate::maze::lemma_coord_index_bound(current.0 as int, current.1 as int, w as int, h as int);
    assert(disc(parent, w, current));
    assert forall|c: (u32, u32)|
        m.in_bounds(c.0 as int, c.1 as int) && c != current implies closed_at(closed, w, c)
        == closed_at(closed_entry, w, c) by {
        crate::maze::lemma_coord_index_bound(c.0 as int, c.1 as int, w as int, h as int);
        crate::maze::lemma_coord_index_injective(
            c.0 as int,
            c.1 as int,
            current.0 as int,
            current.1 as int,
            w as int,
            h as int,
        );
    }
    assert forall|a: int, b: int| 0 <= a < b < open_now.len() implies open_now[a]
        != open_now[b] by {
        let a0: int = if a < li {
            a
        } else {
            a + 1
        };
        let b0: int = if b < li {
            b
        } else {
            b + 1
        };
        assert(open_now[a] == open_entry[a0] && open_now[b] == open_entry[b0]);
    }
    assert(open_now.no_duplicates());
    assert forall|i: int| 0 <= i < open_now.len() implies {
        &&& m.in_bounds(#[trigger] open_now[i].0 as int, open_now[i].1 as int)
        &&& disc(parent, w, open_now[i])
        &&& !closed_at(closed, w, open_now[i])
    } by {
        let i0: int = if i < li {
            i
        } else {
            i + 1
        };
        assert(open_now[i] == open_entry[i0]);
        assert(open_now[i] != current);
    }
    assert forall|c: (u32, u32)|
        m.in_bounds(c.0 as int, c.1 as int) && #[trigger] disc(parent, w, c) && !closed_at(
            closed,
            w,
            c,
        ) implies open_now.contains(c) by {
        assert(c != current);
        assert(open_entry.contains(c));
        let jx = choose|jx: int| 0 <= jx < open_entry.len() && open_entry[jx] == c;
        if jx < li {
            assert(open_now[jx] == c);
        } else {
            assert(open_now[jx - 1] == c);
        }
    }
    assert forall|c: (u32, u32)|
        m.in_bounds(c.0 as int, c.1 as int) && #[trigger] closed_at(closed, w, c) implies g_minimal(
        m,
        g[c.0 + c.1 * w] as int,
        start,
        c,
    ) by {
        if c == current {
            assert(g_minimal(m, g[c.0 + c.1 * w] as int, start, c)) by {
                reveal(g_minimal);
            }
        } else {
            assert(closed_at(closed_entry, w, c));
        }
    }
    assert forall|c: (u32, u32), n: (u32, u32)|
        #![trigger closed_at(closed, w, c), dist1(c, n)]
        m.in_bounds(c.0 as int, c.1 as int) && closed_at(closed, w, c) && c != current
            && m.is_open(n.0 as int, n.1 as int) && dist1(c, n) && !closed_at(
            closed,
            w,
            n,
        ) implies g[n.0 + n.1 * w] as int <= g[c.0 + c.1 * w] as int + 1 by {
        assert(closed_at(closed_entry, w, c));
        assert(!closed_at(closed_entry, w, n));
    }
}

/// Frozen costs keep their walk-minimality.
proof fn lemma_g_minimal_transfer(
    m: Maze,
    g_old: Seq<u64>,
    g_new: Seq<u64>,
    closed: Seq<bool>,
    start: (u32, u32),
)
    requires
        forall|c: (u32, u32)|
            m.in_bounds(c.0 as int, c.1 as int) && #[trigger] closed_at(closed, m.spec_width(), c)
                ==> g_new[c.0 + c.1 * m.spec_width()] == g_old[c.0 + c.1 * m.spec_width()],
        forall|c: (u32, u32)|
            m.in_bounds(c.0 as int, c.1 as int) && #[trigger] closed_at(closed, m.spec_width(), c)
                ==> g_minimal(m, g_old[c.0 + c.1 * m.spec_width()] as int, start, c),
    ensures
        forall|c: (u32, u32)|
            m.in_bounds(c.0 as int, c.1 as int) && #[trigger] closed_at(closed, m.spec_width(), c)
                ==> g_minimal(m, g_new[c.0 + c.1 * m.spec_width()] as int, start, c),
{
    let w = m.spec_width();
    assert forall|c: (u32, u32)|
        m.in_bounds(c.0 as int, c.1 as int) && #[trigger] closed_at(closed, w, c) implies g_minimal(
        m,
        g_new[c.0 + c.1 * w] as int,
        start,
        c,
    ) by {
        assert(g_new[c.0 + c.1 * w] == g_old[c.0 + c.1 * w]);
        assert(g_minimal(m, g_old[c.0 + c.1 * w] as int, start, c));
    }
}

/// Replacing one already-set predecessor entry keeps the number of
/// discovered coordinates unchanged.
proof fn lemma_count_somes_same(pre: Seq<Option<(u32, u32)>>, post: Seq<Option<(u32, u32)>>, i: int)
    requires
        0 <= i < pre.len(),
        pre[i] is Some,
        exists|v: (u32, u32)| post == pre.update(i, Some(v)),
    ensures
        count_somes(post) == count_somes(pre),
    decreases pre.len(),
{
    let v = choose|v: (u32, u32)| post == pre.update(i, Some(v));
    if i == pre.len() - 1 {
        assert(post.drop_last() =~= pre.drop_last());
    } else {
        assert(post.drop_last() =~= pre.drop_last().update(i, Some(v)));
        lemma_count_somes_same(pre.drop_last(), pre.drop_last().update(i, Some(v)), i);
    }
}

} // verus!
