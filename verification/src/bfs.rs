//! The breadth-first-search solver: level-order search over the open
//! coordinates, with a predecessor map for path reconstruction.

use vstd::prelude::*;
use crate::maze::Maze;
use crate::paths::{connected, dist1, is_open_path, lemma_open_path_closed_set, step_entry};

verus! {

/// The number of discovered entries of a predecessor grid.
pub(crate) open spec fn count_somes(s: Seq<Option<(u32, u32)>>) -> nat
    decreases s.len(),
{
    if s.len() == 0 {
        0
    } else {
        count_somes(s.drop_last()) + if s.last() is Some {
            1nat
        } else {
            0nat
        }
    }
}

pub(crate) proof fn lemma_count_somes_le(s: Seq<Option<(u32, u32)>>)
    ensures
        count_somes(s) <= s.len(),
    decreases s.len(),
{
    if s.len() > 0 {
        lemma_count_somes_le(s.drop_last());
    }
}

pub(crate) proof fn lemma_count_somes_update(s: Seq<Option<(u32, u32)>>, i: int, v: (u32, u32))
    requires
        0 <= i < s.len(),
        s[i] is None,
    ensures
        count_somes(s.update(i, Some(v))) == count_somes(s) + 1,
    decreases s.len(),
{
    if i == s.len() - 1 {
        assert(s.update(i, Some(v)).drop_last() =~= s.drop_last());
    } else {
        assert(s.update(i, Some(v)).drop_last() =~= s.drop_last().update(i, Some(v)));
        lemma_count_somes_update(s.drop_last(), i, v);
    }
}

/// Whether `c` has been discovered: its predecessor entry is set.
pub(crate) open spec fn disc(parent: Seq<Option<(u32, u32)>>, w: u32, c: (u32, u32)) -> bool {
    parent[c.0 + c.1 * w] is Some
}

/// The predecessor grid is a well-formed search forest rooted at
/// `start`: every discovered coordinate is open and in bounds, and
/// every discovered coordinate but the root points one open step back
/// towards a discovered coordinate of smaller depth.
pub(crate) open spec fn parent_wf(
    m: Maze,
    parent: Seq<Option<(u32, u32)>>,
    depth: Map<(u32, u32), nat>,
    start: (u32, u32),
) -> bool {
    &&& forall|c: (u32, u32)|
        m.in_bounds(c.0 as int, c.1 as int) && #[trigger] disc(parent, m.spec_width(), c) ==> {
            &&& m.is_open(c.0 as int, c.1 as int)
            &&& depth.dom().contains(c)
            &&& (c != start ==> {
                let p = parent[c.0 + c.1 * m.spec_width()]->Some_0;
                &&& dist1(p, c)
                &&& m.in_bounds(p.0 as int, p.1 as int)
                &&& disc(parent, m.spec_width(), p)
                &&& depth.dom().contains(p)
                &&& depth[c] > depth[p]
            })
        }
    &&& m.in_bounds(start.0 as int, start.1 as int)
    &&& disc(parent, m.spec_width(), start)
    &&& parent[start.0 + start.1 * m.spec_width()] == Some(start)
    &&& depth.dom().contains(start)
    &&& depth[start] == 0
}

/// Every open coordinate one step from `c` is discovered.
pub(crate) open spec fn expanded(m: Maze, parent: Seq<Option<(u32, u32)>>, c: (u32, u32)) -> bool {
    forall|n: (u32, u32)|
        m.is_open(n.0 as int, n.1 as int) && dist1(c, n) ==> disc(parent, m.spec_width(), n)
}

/// Every walk from `start` to `c` through open coordinates takes at
/// least `depth[c]` steps: the recorded level is a lower bound on the
/// length of every such walk.
#[verifier::opaque]
pub(crate) open spec fn depth_minimal(
    m: Maze,
    depth: Map<(u32, u32), nat>,
    start: (u32, u32),
    c: (u32, u32),
) -> bool {
    forall|q: Seq<(u32, u32)>|
        is_open_path(m, q) && q.first() == start && q.last() == c ==> q.len() > depth[c]
}

/// A walk that starts discovered and ends undiscovered crosses the
/// frontier somewhere.
proof fn lemma_path_disc_transition(m: Maze, parent: Seq<Option<(u32, u32)>>, q: Seq<(u32, u32)>)
    requires
        is_open_path(m, q),
        disc(parent, m.spec_width(), q.first()),
        !disc(parent, m.spec_width(), q.last()),
    ensures
        exists|i: int|
            0 <= i < q.len() - 1 && disc(parent, m.spec_width(), #[trigger] q[i]) && !disc(
                parent,
                m.spec_width(),
                q[i + 1],
            ),
    decreases q.len(),
{
    let w = m.spec_width();
    if !disc(parent, w, q[1]) {
        assert(disc(parent, w, q[0]) && !disc(parent, w, q[1]));
    } else {
        let tail = q.drop_first();
        assert forall|i: int| 0 <= i < tail.len() implies m.is_open(
            #[trigger] tail[i].0 as int,
            tail[i].1 as int,
        ) by {
            assert(m.is_open(q[i + 1].0 as int, q[i + 1].1 as int));
        }
        assert forall|i: int| 0 <= i < tail.len() - 1 implies dist1(
            #[trigger] tail[i],
            tail[i + 1],
        ) by {
            assert(dist1(q[i + 1], q[i + 2]));
        }
        lemma_path_disc_transition(m, parent, tail);
        let i = choose|i: int|
            0 <= i < tail.len() - 1 && disc(parent, w, #[trigger] tail[i]) && !disc(
                parent,
                w,
                tail[i + 1],
            );
        assert(q[i + 1] == tail[i] && q[i + 2] == tail[i + 1]);
        assert(disc(parent, w, q[i + 1]) && !disc(parent, w, q[i + 1 + 1]));
    }
}

/// When a fresh coordinate is discovered from the head of the queue,
/// its level undercuts no walk: every walk from the start must first
/// cross the frontier, whose members sit no deeper than the head.
#[verifier::rlimit(100)]
proof fn lemma_depth_minimal_discover(
    m: Maze,
    parent: Seq<Option<(u32, u32)>>,
    depth: Map<(u32, u32), nat>,
    queue: Seq<(u32, u32)>,
    head: int,
    start: (u32, u32),
    cur: (u32, u32),
    t: (u32, u32),
)
    requires
        m.wf(),
        m.in_bounds(start.0 as int, start.1 as int),
        disc(parent, m.spec_width(), start),
        m.in_bounds(cur.0 as int, cur.1 as int),
        disc(parent, m.spec_width(), cur),
        depth.dom().contains(cur),
        m.is_open(t.0 as int, t.1 as int),
        !disc(parent, m.spec_width(), t),
        1 <= head <= queue.len(),
        queue[head - 1] == cur,
        forall|c: (u32, u32)|
            m.in_bounds(c.0 as int, c.1 as int) && #[trigger] disc(parent, m.spec_width(), c)
                ==> queue.contains(c),
        forall|i: int, j: int|
            0 <= i <= j < queue.len() ==> depth[queue[i]] <= depth[queue[j]],
        forall|i: int| 0 <= i <= head - 2 ==> expanded(m, parent, #[trigger] queue[i]),
        forall|c: (u32, u32)|
            m.in_bounds(c.0 as int, c.1 as int) && #[trigger] disc(parent, m.spec_width(), c)
                ==> depth_minimal(m, depth, start, c),
    ensures
        depth_minimal(m, depth.insert(t, (depth[cur] + 1) as nat), start, t),
{
    let w = m.spec_width();
    let depth_post = depth.insert(t, (depth[cur] + 1) as nat);
    reveal(depth_minimal);
    assert forall|q: Seq<(u32, u32)>|
        is_open_path(m, q) && q.first() == start && q.last() == t implies q.len()
        > depth_post[t] by {
        lemma_path_disc_transition(m, parent, q);
        let i = choose|i: int|
            0 <= i < q.len() - 1 && disc(parent, w, #[trigger] q[i]) && !disc(parent, w, q[i + 1]);
        let u = q[i];
        let prefix = q.take(i + 1);
        assert forall|k: int| 0 <= k < prefix.len() implies m.is_open(
            #[trigger] prefix[k].0 as int,
            prefix[k].1 as int,
        ) by {
            assert(m.is_open(q[k].0 as int, q[k].1 as int));
        }
        assert forall|k: int| 0 <= k < prefix.len() - 1 implies dist1(
            #[trigger] prefix[k],
            prefix[k + 1],
        ) by {
            assert(dist1(q[k], q[k + 1]));
        }
        assert(is_open_path(m, prefix));
        assert(prefix.first() == start && prefix.last() == u);
        assert(depth_minimal(m, depth, start, u));
        assert(prefix.len() > depth[u]) by {
            reveal(depth_minimal);
        }
        assert(!expanded(m, parent, u)) by {
            assert(m.is_open(q[i + 1].0 as int, q[i + 1].1 as int) && dist1(u, q[i + 1]));
        }
        assert(queue.contains(u));
        let j = choose|j: int| 0 <= j < queue.len() && queue[j] == u;
        assert(j > head - 2);
        assert(depth[queue[head - 1]] <= depth[queue[j]]);
        assert(depth[cur] <= depth[u]);
        assert(q.len() - 1 >= i + 1);
        assert(q.len() > depth[cur] + 1);
    }
}

/// The open coordinates one step from `node`, in north, east, south,
/// west order, each included exactly when it is open.  Out-of-range
/// directions are omitted, never wrapped.
pub fn get_node_neighbours(node: (u32, u32), maze: &Maze) -> (r: Vec<(u32, u32)>)
    requires
        maze.wf(),
        maze.in_bounds(node.0 as int, node.1 as int),
    ensures
        r@ == step_entry(*maze, node, crate::maze::Direction::North, 1) + step_entry(
            *maze,
            node,
            crate::maze::Direction::East,
            1,
        ) + step_entry(*maze, node, crate::maze::Direction::South, 1) + step_entry(
            *maze,
            node,
            crate::maze::Direction::West,
            1,
        ),
        r@.no_duplicates(),
        forall|i: int|
            0 <= i < r@.len() ==> maze.is_open(#[trigger] r@[i].0 as int, r@[i].1 as int) && dist1(
                node,
                r@[i],
            ),
        forall|n: (u32, u32)|
            maze.is_open(n.0 as int, n.1 as int) && dist1(node, n) ==> r@.contains(n),
{
    proof {
        crate::dfs::lemma_dims_give_room(*maze);
    }
    let mut neighbours: Vec<(u32, u32)> = Vec::new();
    let ghost mut i_north: int = -1;
    let ghost mut i_east: int = -1;
    let ghost mut i_south: int = -1;
    let ghost mut i_west: int = -1;
    if node.1 >= 1 && maze.is_open_at(node.0, node.1 - 1) {
        proof {
            i_north = neighbours@.len() as int;
        }
        neighbours.push((node.0, node.1 - 1));
    }
    if maze.is_open_at(node.0 + 1, node.1) {
        proof {
            i_east = neighbours@.len() as int;
        }
        neighbours.push((node.0 + 1, node.1));
    }
    if maze.is_open_at(node.0, node.1 + 1) {
        proof {
            i_south = neighbours@.len() as int;
        }
        neighbours.push((node.0, node.1 + 1));
    }
    if node.0 >= 1 && maze.is_open_at(node.0 - 1, node.1) {
        proof {
            i_west = neighbours@.len() as int;
        }
        neighbours.push((node.0 - 1, node.1));
    }
    proof {
        assert(neighbours@ =~= step_entry(*maze, node, crate::maze::Direction::North, 1)
            + step_entry(*maze, node, crate::maze::Direction::East, 1) + step_entry(
            *maze,
            node,
            crate::maze::Direction::South,
            1,
        ) + step_entry(*maze, node, crate::maze::Direction::West, 1));
        assert forall|a: int, b: int|
            0 <= a < b < neighbours@.len() implies neighbours@[a] != neighbours@[b] by {}
        assert forall|n: (u32, u32)|
            maze.is_open(n.0 as int, n.1 as int) && dist1(node, n) implies neighbours@.contains(
            n,
        ) by {
            if n.0 == node.0 && n.1 + 1 == node.1 {
                assert(neighbours@[i_north] == n);
            } else if n.1 == node.1 && n.0 == node.0 + 1 {
                assert(neighbours@[i_east] == n);
            } else if n.0 == node.0 && n.1 == node.1 + 1 {
                assert(neighbours@[i_south] == n);
            } else {
                assert(n.1 == node.1 && n.0 + 1 == node.0);
                assert(neighbours@[i_west] == n);
            }
        }
    }
    neighbours
}

/// Walks the predecessor map back from `end` to `start` and returns
/// the forward path.
#[verifier::rlimit(100)]
pub(crate) fn construct_path(
    maze: &Maze,
    parent: &Vec<Option<(u32, u32)>>,
    start: (u32, u32),
    end: (u32, u32),
    Ghost(depth): Ghost<Map<(u32, u32), nat>>,
) -> (r: Vec<(u32, u32)>)
    requires
        maze.wf(),
        parent@.len() == maze.spec_height() * maze.spec_width(),
        parent_wf(*maze, parent@, depth, start),
        maze.in_bounds(end.0 as int, end.1 as int),
        disc(parent@, maze.spec_width(), end),
    ensures
        is_open_path(*maze, r@),
        r@.first() == start,
        r@.last() == end,
        r@.len() <= depth[end] + 1,
{
    let w = maze.width();
    let h = maze.height();
    let mut rev: Vec<(u32, u32)> = Vec::new();
    let mut cur = end;
    while cur.0 != start.0 || cur.1 != start.1
        invariant
            maze.wf(),
            maze.spec_width() == w,
            maze.spec_height() == h,
            parent@.len() == h * w,
            parent_wf(*maze, parent@, depth, start),
            maze.in_bounds(cur.0 as int, cur.1 as int),
            disc(parent@, w, cur),
            rev@.len() + depth[cur] <= depth[end],
            rev@.len() > 0 ==> rev@.first() == end && dist1(cur, rev@.last()),
            rev@.len() == 0 ==> cur == end,
            forall|i: int|
                0 <= i < rev@.len() ==> maze.is_open(#[trigger] rev@[i].0 as int, rev@[i].1 as int),
            forall|i: int| 0 <= i < rev@.len() - 1 ==> dist1(#[trigger] rev@[i + 1], rev@[i]),
        decreases depth[cur],
    {
        rev.push(cur);
        proof {
            crate::maze::lemma_coord_index_bound(cur.0 as int, cur.1 as int, w as int, h as int);
        }
        let next = parent[cur.0 as usize + cur.1 as usize * w as usize].unwrap();
        cur = next;
    }
    rev.push(cur);
    let n = rev.len();
    let mut path: Vec<(u32, u32)> = Vec::new();
    let mut i: usize = 0;
    while i < n
        invariant
            n == rev@.len(),
            i <= n,
            path@.len() == i,
            forall|j: int| 0 <= j < i ==> path@[j] == rev@[n - 1 - j],
        decreases n - i,
    {
        path.push(rev[n - 1 - i]);
        i = i + 1;
    }
    proof {
        assert(path@.first() == rev@.last());
        assert(path@.last() == rev@.first());
        assert forall|i: int| 0 <= i < path@.len() - 1 implies dist1(
            #[trigger] path@[i],
            path@[i + 1],
        ) by {
            assert(path@[i] == rev@[n - 1 - i] && path@[i + 1] == rev@[n - 2 - i]);
            assert(dist1(rev@[(n - 2 - i) + 1], rev@[n - 2 - i]));
        }
    }
    path
}

/// Finds a path from `start` to `end` through the open coordinates of
/// the maze by level-order search.  Returns a walk from `start` to
/// `end` whenever one exists, and `None` exactly when `end` is not
/// reachable from `start`.
#[verifier::rlimit(100)]
pub fn breadth_first_search(start: (u32, u32), end: (u32, u32), maze: &Maze) -> (r: Option<
    Vec<(u32, u32)>,
>)
    requires
        maze.wf(),
        maze.is_open(start.0 as int, start.1 as int),
    ensures
        match r {
            Some(p) => {
                &&& is_open_path(*maze, p@)
                &&& p@.first() == start
                &&& p@.last() == end
                &&& forall|q: Seq<(u32, u32)>|
                    is_open_path(*maze, q) && q.first() == start && q.last() == end ==> p@.len()
                        <= q.len()
            },
            None => !connected(*maze, start, end),
        },
{
    let w = maze.width();
    let h = maze.height();
    let total = maze.coord_count();
    let mut parent: Vec<Option<(u32, u32)>> = Vec::new();
    let mut k: usize = 0;
    while k < total
        invariant
            k <= total,
            parent@.len() == k,
            forall|j: int| 0 <= j < k ==> parent@[j] is None,
        decreases total - k,
    {
        parent.push(None);
        k = k + 1;
    }
    let ghost parent_init = parent@;
    proof {
        crate::maze::lemma_coord_index_bound(start.0 as int, start.1 as int, w as int, h as int);
        lemma_count_somes_zero(parent_init);
        lemma_count_somes_update(parent_init, start.0 + start.1 * w, start);
    }
    let ghost mut depth: Map<(u32, u32), nat> = Map::empty().insert(start, 0);
    parent.set(start.0 as usize + start.1 as usize * w as usize, Some(start));
    proof {
        assert forall|c: (u32, u32)|
            maze.in_bounds(c.0 as int, c.1 as int) && #[trigger] disc(parent@, w, c) implies c
            == start by {
            crate::maze::lemma_coord_index_bound(c.0 as int, c.1 as int, w as int, h as int);
            if c != start {
                crate::maze::lemma_coord_index_injective(
                    c.0 as int,
                    c.1 as int,
                    start.0 as int,
                    start.1 as int,
                    w as int,
                    h as int,
                );
            }
        }
        assert(parent_wf(*maze, parent@, depth, start));
    }
    let mut queue: Vec<(u32, u32)> = Vec::new();
    queue.push(start);
    proof {
        assert forall|c: (u32, u32)|
            maze.in_bounds(c.0 as int, c.1 as int) && #[trigger] disc(parent@, w, c)
                implies queue@.contains(c) by {
            assert(c == start);
            assert(queue@[0] == c);
        }
        assert forall|c: (u32, u32)|
            maze.in_bounds(c.0 as int, c.1 as int) && #[trigger] disc(parent@, w, c)
                implies depth_minimal(*maze, depth, start, c) by {
            reveal(depth_minimal);
            assert(c == start);
            assert forall|q: Seq<(u32, u32)>|
                is_open_path(*maze, q) && q.first() == start && q.last() == c implies q.len()
                > depth[c] by {
                assert(q.len() >= 1 && depth[start] == 0);
            }
        }
    }
    let mut head: usize = 0;
    while head < queue.len()
        invariant
            maze.wf(),
            maze.spec_width() == w,
            maze.spec_height() == h,
            maze.is_open(start.0 as int, start.1 as int),
            parent@.len() == h * w,
            head <= queue@.len(),
            count_somes(parent@) <= parent@.len(),
            parent_wf(*maze, parent@, depth, start),
            forall|i: int|
                0 <= i < queue@.len() ==> maze.in_bounds(
                    #[trigger] queue@[i].0 as int,
                    queue@[i].1 as int,
                ) && disc(parent@, w, queue@[i]),
            forall|c: (u32, u32)|
                maze.in_bounds(c.0 as int, c.1 as int) && #[trigger] disc(parent@, w, c)
                    ==> queue@.contains(c),
            forall|i: int|
                0 <= i < head ==> queue@[i] != end && expanded(*maze, parent@, #[trigger] queue@[i]),
            forall|i: int, j: int|
                0 <= i <= j < queue@.len() ==> depth[queue@[i]] <= depth[queue@[j]],
            head < queue@.len() ==> forall|i: int|
                0 <= i < queue@.len() ==> depth[#[trigger] queue@[i]] <= depth[queue@[head as int]]
                    + 1,
            forall|c: (u32, u32)|
                maze.in_bounds(c.0 as int, c.1 as int) && #[trigger] disc(parent@, w, c)
                    ==> depth_minimal(*maze, depth, start, c),
        decreases h * w - count_somes(parent@), queue@.len() - head,
    {
        let cur = queue[head];
        head = head + 1;
        if cur.0 == end.0 && cur.1 == end.1 {
            let path = finish_path(maze, &parent, start, end, Ghost(depth));
            return Some(path);
        }
        let ghost parent_entry = parent@;
        let ghost queue_entry = queue@;
        let neighbours = get_node_neighbours(cur, maze);
        let mut j: usize = 0;
        while j < neighbours.len()
            invariant
                maze.wf(),
                maze.spec_width() == w,
                maze.spec_height() == h,
                parent@.len() == h * w,
                count_somes(parent@) <= parent@.len(),
                parent_wf(*maze, parent@, depth, start),
                forall|i: int|
                    0 <= i < neighbours@.len() ==> maze.is_open(
                        #[trigger] neighbours@[i].0 as int,
                        neighbours@[i].1 as int,
                    ) && dist1(cur, neighbours@[i]),
                j <= neighbours@.len(),
                maze.in_bounds(cur.0 as int, cur.1 as int),
                disc(parent@, w, cur),
                depth.dom().contains(cur),
                forall|i: int| 0 <= i < j ==> disc(parent@, w, #[trigger] neighbours@[i]),
                forall|c: (u32, u32)|
                    maze.in_bounds(c.0 as int, c.1 as int) && #[trigger] disc(parent_entry, w, c)
                        ==> disc(parent@, w, c),
                queue_entry.len() <= queue@.len(),
                queue@.len() - queue_entry.len() == count_somes(parent@) - count_somes(
                    parent_entry,
                ),
                forall|i: int| 0 <= i < queue_entry.len() ==> queue@[i] == queue_entry[i],
                forall|i: int|
                    0 <= i < queue@.len() ==> maze.in_bounds(
                        #[trigger] queue@[i].0 as int,
                        queue@[i].1 as int,
                    ) && disc(parent@, w, queue@[i]),
                forall|c: (u32, u32)|
                    maze.in_bounds(c.0 as int, c.1 as int) && #[trigger] disc(parent@, w, c)
                        ==> queue@.contains(c),
                1 <= head <= queue_entry.len(),
                cur == queue@[head - 1],
                forall|i: int, j: int|
                    0 <= i <= j < queue@.len() ==> depth[queue@[i]] <= depth[queue@[j]],
                forall|i: int|
                    0 <= i < queue@.len() ==> depth[#[trigger] queue@[i]] <= depth[cur] + 1,
                forall|i: int|
                    0 <= i <= head - 2 ==> expanded(*maze, parent@, #[trigger] queue@[i]),
                forall|c: (u32, u32)|
                    maze.in_bounds(c.0 as int, c.1 as int) && #[trigger] disc(parent@, w, c)
                        ==> depth_minimal(*maze, depth, start, c),
            decreases neighbours@.len() - j,
        {
            let t = neighbours[j];
            proof {
                crate::maze::lemma_coord_index_bound(t.0 as int, t.1 as int, w as int, h as int);
            }
            let ti = t.0 as usize + t.1 as usize * w as usize;
            if parent[ti].is_none() {
                let ghost pre = parent@;
                let ghost depth_pre = depth;
                let ghost queue_pre = queue@;
                proof {
                    lemma_count_somes_update(parent@, ti as int, cur);
                    lemma_depth_minimal_discover(
                        *maze,
                        parent@,
                        depth,
                        queue@,
                        head as int,
                        start,
                        cur,
                        t,
                    );
                    depth = depth.insert(t, (depth_pre[cur] + 1) as nat);
                }
                parent.set(ti, Some(cur));
                queue.push(t);
                proof {
                    lemma_count_somes_le(parent@);
                    lemma_discover(*maze, pre, parent@, depth_pre, depth, start, cur, t);
                    assert forall|c: (u32, u32)|
                        maze.in_bounds(c.0 as int, c.1 as int) && #[trigger] disc(
                        parent@,
                        w,
                        c,
                    ) implies queue@.contains(c) by {
                        if c == t {
                            assert(queue@[queue@.len() - 1] == t);
                        } else {
                            assert(disc(pre, w, c));
                            assert(queue_pre.contains(c));
                            let i = choose|i: int| 0 <= i < queue_pre.len() && queue_pre[i] == c;
                            assert(queue@[i] == c);
                        }
                    }
                    // Old coordinates keep their levels; the fresh one
                    // sits one past the head, so order and bound hold.
                    assert forall|i: int|
                        0 <= i < queue_pre.len() implies queue@[i] == queue_pre[i]
                        && #[trigger] depth[queue_pre[i]] == depth_pre[queue_pre[i]] by {
                        assert(disc(pre, w, queue_pre[i]));
                        assert(queue_pre[i] != t);
                    }
                    assert(depth[cur] == depth_pre[cur]);
                    assert(depth[t] == depth_pre[cur] + 1);
                    assert forall|a: int, b: int|
                        0 <= a <= b < queue@.len() implies depth[queue@[a]] <= depth[
                        queue@[b]] by {
                        if b < queue_pre.len() {
                            assert(depth_pre[queue_pre[a]] <= depth_pre[queue_pre[b]]);
                        } else {
                            assert(queue@[b] == t);
                            if a < queue_pre.len() {
                                assert(depth_pre[queue_pre[a]] <= depth_pre[cur] + 1);
                            }
                        }
                    }
                    assert forall|i: int|
                        0 <= i < queue@.len() implies depth[#[trigger] queue@[i]] <= depth[cur]
                        + 1 by {
                        if i < queue_pre.len() {
                            assert(depth_pre[queue_pre[i]] <= depth_pre[cur] + 1);
                        }
                    }
                    assert forall|c: (u32, u32)|
                        maze.in_bounds(c.0 as int, c.1 as int) && #[trigger] disc(
                        parent@,
                        w,
                        c,
                    ) implies depth_minimal(*maze, depth, start, c) by {
                        if c != t {
                            reveal(depth_minimal);
                            assert(disc(pre, w, c));
                            assert(depth_minimal(*maze, depth_pre, start, c));
                            assert(depth[c] == depth_pre[c]);
                            assert forall|q: Seq<(u32, u32)>|
                                is_open_path(*maze, q) && q.first() == start && q.last()
                                    == c implies q.len() > depth[c] by {
                                assert(q.len() > depth_pre[c]);
                            }
                        }
                    }
                    assert forall|i: int|
                        0 <= i <= head - 2 implies expanded(
                        *maze,
                        parent@,
                        #[trigger] queue@[i],
                    ) by {
                        assert(expanded(*maze, pre, queue_pre[i]));
                        assert forall|n: (u32, u32)|
                            maze.is_open(n.0 as int, n.1 as int) && dist1(
                                queue@[i],
                                n,
                            ) implies disc(parent@, w, n) by {
                            assert(disc(pre, w, n));
                        }
                    }
                }
            }
            j = j + 1;
        }
        proof {
            lemma_requeue_expanded(
                *maze,
                parent_entry,
                parent@,
                queue_entry,
                queue@,
                neighbours@,
                head as int,
                cur,
                end,
            );
            if head < queue@.len() {
                assert(depth[queue@[head - 1]] <= depth[queue@[head as int]]);
                assert forall|i: int|
                    0 <= i < queue@.len() implies depth[#[trigger] queue@[i]] <= depth[queue@[head as int]]
                    + 1 by {
                    assert(depth[queue@[i]] <= depth[cur] + 1);
                }
            }
        }
    }
    proof {
        lemma_no_path(*maze, parent@, depth, queue@, start, end);
    }
    None
}

/// Marking one fresh open neighbour keeps the predecessor grid a
/// well-formed search forest and touches no other entry.
#[verifier::rlimit(100)]
proof fn lemma_discover(
    m: Maze,
    pre: Seq<Option<(u32, u32)>>,
    post: Seq<Option<(u32, u32)>>,
    depth_pre: Map<(u32, u32), nat>,
    depth_post: Map<(u32, u32), nat>,
    start: (u32, u32),
    cur: (u32, u32),
    t: (u32, u32),
)
    requires
        m.wf(),
        pre.len() == m.spec_height() * m.spec_width(),
        parent_wf(m, pre, depth_pre, start),
        m.in_bounds(cur.0 as int, cur.1 as int),
        disc(pre, m.spec_width(), cur),
        m.is_open(t.0 as int, t.1 as int),
        dist1(cur, t),
        !disc(pre, m.spec_width(), t),
        post == pre.update(t.0 + t.1 * m.spec_width(), Some(cur)),
        depth_post == depth_pre.insert(t, (depth_pre[cur] + 1) as nat),
    ensures
        parent_wf(m, post, depth_post, start),
        forall|c: (u32, u32)|
            m.in_bounds(c.0 as int, c.1 as int) && #[trigger] disc(pre, m.spec_width(), c)
                ==> disc(post, m.spec_width(), c),
        forall|c: (u32, u32)|
            m.in_bounds(c.0 as int, c.1 as int) && #[trigger] disc(post, m.spec_width(), c) ==> c
                == t || disc(pre, m.spec_width(), c),
        disc(post, m.spec_width(), t),
{
    let w = m.spec_width();
    let h = m.spec_height();
    crate::maze::lemma_coord_index_bound(t.0 as int, t.1 as int, w as int, h as int);
    assert(t != start);
    assert(disc(post, w, t));
    assert forall|c: (u32, u32)|
        m.in_bounds(c.0 as int, c.1 as int) && c != t implies post[c.0 + c.1 * w] == pre[c.0 + c.1
        * w] by {
        crate::maze::lemma_coord_index_bound(c.0 as int, c.1 as int, w as int, h as int);
        crate::maze::lemma_coord_index_injective(
            c.0 as int,
            c.1 as int,
            t.0 as int,
            t.1 as int,
            w as int,
            h as int,
        );
    }
    assert forall|c: (u32, u32)|
        m.in_bounds(c.0 as int, c.1 as int) && #[trigger] disc(post, w, c) implies {
        &&& m.is_open(c.0 as int, c.1 as int)
        &&& depth_post.dom().contains(c)
        &&& (c != start ==> {
            let p = post[c.0 + c.1 * w]->Some_0;
            &&& dist1(p, c)
            &&& m.in_bounds(p.0 as int, p.1 as int)
            &&& disc(post, w, p)
            &&& depth_post.dom().contains(p)
            &&& depth_post[c] > depth_post[p]
        })
    } by {
        if c == t {
            assert(post[c.0 + c.1 * w] == Some(cur));
            assert(disc(pre, w, cur));
            assert(cur != t);
            assert(depth_post[t] == depth_pre[cur] + 1);
            assert(depth_post[cur] == depth_pre[cur]);
        } else {
            assert(disc(pre, w, c));
            if c != start {
                let p = pre[c.0 + c.1 * w]->Some_0;
                assert(p != t);
                assert(depth_pre[c] > depth_pre[p]);
            }
        }
    }
}

/// After one coordinate is expanded, everything dequeued so far is
/// still expanded and distinct from `end`.
proof fn lemma_requeue_expanded(
    m: Maze,
    parent_entry: Seq<Option<(u32, u32)>>,
    parent: Seq<Option<(u32, u32)>>,
    queue_entry: Seq<(u32, u32)>,
    queue: Seq<(u32, u32)>,
    neighbours: Seq<(u32, u32)>,
    head: int,
    cur: (u32, u32),
    end: (u32, u32),
)
    requires
        1 <= head <= queue_entry.len(),
        queue_entry[head - 1] == cur,
        cur != end,
        forall|i: int| 0 <= i < queue_entry.len() ==> queue[i] == #[trigger] queue_entry[i],
        forall|i: int|
            0 <= i < head - 1 ==> queue_entry[i] != end && expanded(
                m,
                parent_entry,
                #[trigger] queue_entry[i],
            ),
        forall|c: (u32, u32)|
            m.in_bounds(c.0 as int, c.1 as int) && #[trigger] disc(parent_entry, m.spec_width(), c)
                ==> disc(parent, m.spec_width(), c),
        forall|n: (u32, u32)|
            m.is_open(n.0 as int, n.1 as int) && dist1(cur, n) ==> neighbours.contains(n),
        forall|i: int|
            0 <= i < neighbours.len() ==> disc(parent, m.spec_width(), #[trigger] neighbours[i]),
    ensures
        forall|i: int|
            0 <= i < head ==> queue[i] != end && expanded(m, parent, #[trigger] queue[i]),
{
    let w = m.spec_width();
    assert forall|i: int| 0 <= i < head implies queue[i] != end && expanded(
        m,
        parent,
        #[trigger] queue[i],
    ) by {
        if i < head - 1 {
            assert(queue[i] == queue_entry[i]);
            assert(expanded(m, parent_entry, queue_entry[i]));
            assert forall|n: (u32, u32)|
                m.is_open(n.0 as int, n.1 as int) && dist1(queue[i], n) implies disc(
                parent,
                w,
                n,
            ) by {
                assert(disc(parent_entry, w, n));
            }
        } else {
            assert(queue[i] == cur);
            assert forall|n: (u32, u32)|
                m.is_open(n.0 as int, n.1 as int) && dist1(cur, n) implies disc(parent, w, n) by {
                let idx = choose|idx: int| 0 <= idx < neighbours.len() && neighbours[idx] == n;
                assert(disc(parent, w, neighbours[idx]));
            }
        }
    }
}

/// Reconstructs the found path; its length undercuts every walk
/// between the same endpoints, because the recorded level of `end`
/// is a lower bound on all of them.
fn finish_path(
    maze: &Maze,
    parent: &Vec<Option<(u32, u32)>>,
    start: (u32, u32),
    end: (u32, u32),
    Ghost(depth): Ghost<Map<(u32, u32), nat>>,
) -> (r: Vec<(u32, u32)>)
    requires
        maze.wf(),
        parent@.len() == maze.spec_height() * maze.spec_width(),
        parent_wf(*maze, parent@, depth, start),
        maze.in_bounds(end.0 as int, end.1 as int),
        disc(parent@, maze.spec_width(), end),
        depth_minimal(*maze, depth, start, end),
    ensures
        is_open_path(*maze, r@),
        r@.first() == start,
        r@.last() == end,
        forall|q: Seq<(u32, u32)>|
            is_open_path(*maze, q) && q.first() == start && q.last() == end ==> r@.len()
                <= q.len(),
{
    let path = construct_path(maze, parent, start, end, Ghost(depth));
    proof {
        assert forall|q: Seq<(u32, u32)>|
            is_open_path(*maze, q) && q.first() == start && q.last() == end implies path@.len()
            <= q.len() by {
            reveal(depth_minimal);
            assert(q.len() > depth[end]);
        }
    }
    path
}

/// An exhausted frontier proves there is no path: the discovered set
/// is closed under open steps, holds `start`, and misses `end`.
proof fn lemma_no_path(
    m: Maze,
    parent: Seq<Option<(u32, u32)>>,
    depth: Map<(u32, u32), nat>,
    queue: Seq<(u32, u32)>,
    start: (u32, u32),
    end: (u32, u32),
)
    requires
        m.wf(),
        m.is_open(start.0 as int, start.1 as int),
        parent_wf(m, parent, depth, start),
        forall|c: (u32, u32)|
            m.in_bounds(c.0 as int, c.1 as int) && #[trigger] disc(parent, m.spec_width(), c)
                ==> queue.contains(c),
        forall|i: int|
            0 <= i < queue.len() ==> queue[i] != end && expanded(m, parent, #[trigger] queue[i]),
    ensures
        !connected(m, start, end),
{
    let w = m.spec_width();
    let s = Set::new(|c: (u32, u32)| m.in_bounds(c.0 as int, c.1 as int) && disc(parent, w, c));
    assert forall|a: (u32, u32), b: (u32, u32)|
        s.contains(a) && m.is_open(b.0 as int, b.1 as int) && dist1(a, b) implies s.contains(
        b,
    ) by {
        assert(queue.contains(a));
        let i = choose|i: int| 0 <= i < queue.len() && queue[i] == a;
        assert(expanded(m, parent, queue[i]));
    }
    if connected(m, start, end) {
        let p = choose|p: Seq<(u32, u32)>|
            is_open_path(m, p) && p.first() == start && p.last() == end;
        assert(s.contains(start));
        lemma_open_path_closed_set(m, s, p);
        assert(queue.contains(end));
        let i = choose|i: int| 0 <= i < queue.len() && queue[i] == end;
        assert(queue[i] != end);
    }
}

pub(crate) proof fn lemma_count_somes_zero(s: Seq<Option<(u32, u32)>>)
    requires
        forall|j: int| 0 <= j < s.len() ==> s[j] is None,
    ensures
        count_somes(s) == 0,
    decreases s.len(),
{
    if s.len() > 0 {
        lemma_count_somes_zero(s.drop_last());
    }
}

} // verus!
