//! Breadth-first search on the 4-connected grid graph with a given obstacle
//! set: reachability queries and the first step of a shortest-path walk to a
//! goal cell.

use vstd::prelude::*;
use crate::grid::{
    Obstacles, Pos, MAX_BOARD, valid_cell, cell_idx, cell_index, adjacent, dir_dx, dir_dy,
    dir_delta, lemma_cell_idx_bounds, lemma_cell_idx_injective,
};

verus! {

/// A walk across the board of side `n` with obstacle set `blk`: every cell
/// after the first is adjacent to its predecessor, on the board, and not in
/// the obstacle set. The first cell is exempt, as a search never tests its
/// own start cell against the obstacle set.
pub open spec fn path_ok(n: int, blk: Set<(int, int)>, p: Seq<(int, int)>) -> bool
    decreases p.len(),
{
    if p.len() == 0 {
        false
    } else if p.len() == 1 {
        true
    } else {
        path_ok(n, blk, p.drop_last()) && adjacent(p[p.len() - 2], p[p.len() - 1]) && valid_cell(
            n,
            p.last().0,
            p.last().1,
        ) && !blk.contains(p.last())
    }
}

/// Every cell of a walk after the first is adjacent to its predecessor,
/// on the board, and not in the obstacle set.
pub proof fn lemma_path_cell(n: int, blk: Set<(int, int)>, p: Seq<(int, int)>, i: int)
    requires
        path_ok(n, blk, p),
        1 <= i < p.len(),
    ensures
        adjacent(p[i - 1], p[i]),
        valid_cell(n, p[i].0, p[i].1),
        !blk.contains(p[i]),
    decreases p.len(),
{
    if i < p.len() - 1 {
        let q = p.drop_last();
        lemma_path_cell(n, blk, q, i);
        assert(q[i] == p[i]);
        assert(q[i - 1] == p[i - 1]);
    }
}

/// A cell `(tx, ty)` can be reached from `(sx, sy)`: some walk of in-bounds
/// cells outside the obstacle set connects them. This is what a brute-force
/// flood fill starting at `(sx, sy)` computes.
pub open spec fn reachable(
    n: int,
    blk: Set<(int, int)>,
    sx: int,
    sy: int,
    tx: int,
    ty: int,
) -> bool {
    exists|p: Seq<(int, int)>|
        #![trigger path_ok(n, blk, p)]
        path_ok(n, blk, p) && p.first() == (sx, sy) && p.last() == (tx, ty)
}

/// Whether `(x, y)` is one of the goal cells.
pub open spec fn is_goal(goals: Seq<Pos>, x: int, y: int) -> bool {
    exists|j: int| #![trigger goals[j]] 0 <= j < goals.len() && goals[j].x == x && goals[j].y == y
}

/// Some goal cell can be reached from `(sx, sy)`.
pub open spec fn reaches_some_goal(
    n: int,
    blk: Set<(int, int)>,
    goals: Seq<Pos>,
    sx: int,
    sy: int,
) -> bool {
    exists|p: Seq<(int, int)>|
        #![trigger path_ok(n, blk, p)]
        path_ok(n, blk, p) && p.first() == (sx, sy) && is_goal(goals, p.last().0, p.last().1)
}

/// Direction `d` is the first step of some walk of exactly `len` cells from
/// `start` to `c`.
pub open spec fn first_dir_ok(
    n: int,
    blk: Set<(int, int)>,
    start: Pos,
    d: i32,
    c: Pos,
    len: int,
) -> bool {
    &&& 0 <= d < 4
    &&& exists|p: Seq<(int, int)>|
        #![trigger path_ok(n, blk, p)]
        path_ok(n, blk, p) && p.len() == len && p.len() >= 2 && p.first() == (
        start.x as int,
        start.y as int,
        ) && p.last() == (c.x as int, c.y as int) && p[1] == (
        start.x + dir_dx(d as int),
        start.y + dir_dy(d as int),
        )
}

/// Whether the (valid) cell `(x, y)` is marked in a visited grid of side `n`.
pub open spec fn marked(n: int, vs: Seq<bool>, x: int, y: int) -> bool {
    vs[cell_idx(n, x, y)]
}

/// The search state: a visited grid, a first-step grid and the discovery
/// queue, kept consistent with each other. Every discovered cell sits in the
/// queue, is on the board, and (except for the start cell) its recorded
/// direction begins a walk from the start to it.
pub open spec fn bfs_inv(
    n: int,
    blk: Set<(int, int)>,
    start: Pos,
    vs: Seq<bool>,
    fd: Seq<i32>,
    dist: Seq<i32>,
    q: Seq<Pos>,
) -> bool {
    &&& vs.len() == n * n
    &&& fd.len() == n * n
    &&& dist.len() == n * n
    &&& q.len() >= 1
    &&& q[0] == start
    &&& count_true(vs) >= q.len()
    &&& marked(n, vs, start.x as int, start.y as int)
    &&& dist[cell_idx(n, start.x as int, start.y as int)] == 0
    &&& forall|i: int|
        #![trigger q[i]]
        0 <= i < q.len() ==> valid_cell(n, q[i].x as int, q[i].y as int) && marked(
            n,
            vs,
            q[i].x as int,
            q[i].y as int,
        ) && 0 <= dist[cell_idx(n, q[i].x as int, q[i].y as int)] <= i
    &&& forall|i: int, j: int|
        #![trigger q[i], q[j]]
        0 <= i <= j < q.len() ==> dist[cell_idx(n, q[i].x as int, q[i].y as int)] <= dist[cell_idx(
            n,
            q[j].x as int,
            q[j].y as int,
        )]
    &&& forall|i: int|
        #![trigger q[i]]
        0 < i < q.len() ==> q[i] != start && first_dir_ok(
            n,
            blk,
            start,
            fd[cell_idx(n, q[i].x as int, q[i].y as int)],
            q[i],
            dist[cell_idx(n, q[i].x as int, q[i].y as int)] + 1,
        )
    &&& forall|x: int, y: int|
        valid_cell(n, x, y) && marked(n, vs, x, y) ==> exists|i: int|
            #![trigger q[i]]
            0 <= i < q.len() && q[i].x == x && q[i].y == y
}

/// Every walk from the start to a discovered cell takes at least as many
/// cells as the search recorded for that cell: the recorded distances are
/// lower bounds, and so (with the witnessed walks) exact shortest lengths.
pub open spec fn dist_lower_inv(
    n: int,
    blk: Set<(int, int)>,
    start: Pos,
    vs: Seq<bool>,
    dist: Seq<i32>,
) -> bool {
    forall|p: Seq<(int, int)>|
        #![trigger path_ok(n, blk, p)]
        path_ok(n, blk, p) && p.first() == (start.x as int, start.y as int) && valid_cell(
            n,
            p.last().0,
            p.last().1,
        ) && marked(n, vs, p.last().0, p.last().1) ==> p.len() >= dist[cell_idx(
            n,
            p.last().0,
            p.last().1,
        )] + 1
}

/// Any walk from the start to a still undiscovered cell is strictly longer
/// than the walks to the search frontier: it must leave the discovered set,
/// and it can only do so through an unprocessed queue cell, whose recorded
/// distance is at least the frontier's.
pub proof fn lemma_unvisited_path_long(
    n: int,
    blk: Set<(int, int)>,
    start: Pos,
    vs: Seq<bool>,
    dist: Seq<i32>,
    q: Seq<Pos>,
    qh: int,
    p: Seq<(int, int)>,
)
    requires
        1 <= n <= MAX_BOARD,
        vs.len() == n * n,
        dist.len() == n * n,
        valid_cell(n, start.x as int, start.y as int),
        marked(n, vs, start.x as int, start.y as int),
        forall|x: int, y: int|
            valid_cell(n, x, y) && marked(n, vs, x, y) ==> exists|i: int|
                #![trigger q[i]]
                0 <= i < q.len() && q[i].x == x && q[i].y == y,
        forall|i: int, j: int|
            #![trigger q[i], q[j]]
            0 <= i <= j < q.len() ==> dist[cell_idx(n, q[i].x as int, q[i].y as int)] <= dist[
                cell_idx(n, q[j].x as int, q[j].y as int)],
        forall|i: int, x2: int, y2: int|
            #![trigger q[i], marked(n, vs, x2, y2)]
            0 <= i < qh && adjacent((q[i].x as int, q[i].y as int), (x2, y2)) && valid_cell(
                n,
                x2,
                y2,
            ) && !blk.contains((x2, y2)) ==> marked(n, vs, x2, y2),
        dist_lower_inv(n, blk, start, vs, dist),
        0 <= qh < q.len(),
        path_ok(n, blk, p),
        p.first() == (start.x as int, start.y as int),
        valid_cell(n, p.last().0, p.last().1),
        !marked(n, vs, p.last().0, p.last().1),
    ensures
        p.len() >= dist[cell_idx(n, q[qh].x as int, q[qh].y as int)] + 2,
    decreases p.len(),
{
    assert(p.len() >= 2);
    let w = p[p.len() - 2];
    let pp = p.drop_last();
    assert(path_ok(n, blk, pp));
    assert(pp.last() == w);
    assert(pp.first() == p.first());
    if p.len() >= 3 {
        lemma_path_cell(n, blk, p, p.len() - 2);
    } else {
        assert(w == p.first());
    }
    assert(valid_cell(n, w.0, w.1));
    assert(adjacent(p[p.len() - 2], p[p.len() - 1]));
    if marked(n, vs, w.0, w.1) {
        let i = choose|i: int|
            #![trigger q[i]]
            0 <= i < q.len() && q[i].x == w.0 && q[i].y == w.1;
        if i < qh {
            // a processed cell: its unblocked neighbour would be marked
            assert(adjacent((q[i].x as int, q[i].y as int), (p.last().0, p.last().1)));
            assert(marked(n, vs, p.last().0, p.last().1));
            assert(false);
        }
        assert(dist[cell_idx(n, q[qh].x as int, q[qh].y as int)] <= dist[cell_idx(
            n,
            q[i].x as int,
            q[i].y as int,
        )]);
        assert(pp.len() >= dist[cell_idx(n, w.0, w.1)] + 1);
    } else {
        lemma_unvisited_path_long(n, blk, start, vs, dist, q, qh, pp);
    }
}

/// How many entries of a boolean sequence are set.
pub closed spec fn count_true(s: Seq<bool>) -> int
    decreases s.len(),
{
    if s.len() == 0 {
        0
    } else {
        count_true(s.drop_last()) + if s.last() {
            1int
        } else {
            0int
        }
    }
}

pub proof fn lemma_count_true_le(s: Seq<bool>)
    ensures
        0 <= count_true(s) <= s.len(),
    decreases s.len(),
{
    if s.len() > 0 {
        lemma_count_true_le(s.drop_last());
    }
}

pub proof fn lemma_count_true_all_false(s: Seq<bool>)
    requires
        forall|i: int| 0 <= i < s.len() ==> !s[i],
    ensures
        count_true(s) == 0,
    decreases s.len(),
{
    if s.len() > 0 {
        lemma_count_true_all_false(s.drop_last());
    }
}

pub proof fn lemma_count_true_update(s: Seq<bool>, j: int)
    requires
        0 <= j < s.len(),
        !s[j],
    ensures
        count_true(s.update(j, true)) == count_true(s) + 1,
    decreases s.len(),
{
    let t = s.update(j, true);
    if j == s.len() - 1 {
        assert(t.drop_last() =~= s.drop_last());
    } else {
        assert(t.drop_last() =~= s.drop_last().update(j, true));
        lemma_count_true_update(s.drop_last(), j);
        assert(t.last() == s.last());
    }
}

/// A walk can be extended by one step to an adjacent, in-bounds cell outside
/// the obstacle set.
pub proof fn lemma_path_extend(n: int, blk: Set<(int, int)>, p: Seq<(int, int)>, c: (int, int))
    requires
        path_ok(n, blk, p),
        adjacent(p.last(), c),
        valid_cell(n, c.0, c.1),
        !blk.contains(c),
    ensures
        path_ok(n, blk, p.push(c)),
        p.push(c).first() == p.first(),
        p.push(c).last() == c,
        p.push(c).len() == p.len() + 1,
        p.len() >= 2 ==> p.push(c)[1] == p[1],
        p.len() == 1 ==> p.push(c)[1] == c,
{
    let q = p.push(c);
    assert(q.drop_last() =~= p);
    assert(q[q.len() - 2] == p[p.len() - 1]);
}

/// A walk that starts in a marked cell ends in a marked cell, when the
/// marked set contains, with each cell, every in-bounds neighbour outside
/// the obstacle set.
pub proof fn lemma_path_stays_marked(
    n: int,
    blk: Set<(int, int)>,
    vs: Seq<bool>,
    p: Seq<(int, int)>,
)
    requires
        path_ok(n, blk, p),
        valid_cell(n, p.first().0, p.first().1),
        marked(n, vs, p.first().0, p.first().1),
        forall|x1: int, y1: int, x2: int, y2: int|
            #![trigger marked(n, vs, x1, y1), marked(n, vs, x2, y2)]
            valid_cell(n, x1, y1) && marked(n, vs, x1, y1) && adjacent((x1, y1), (x2, y2))
                && valid_cell(n, x2, y2) && !blk.contains((x2, y2)) ==> marked(n, vs, x2, y2),
    ensures
        valid_cell(n, p.last().0, p.last().1),
        marked(n, vs, p.last().0, p.last().1),
    decreases p.len(),
{
    if p.len() > 1 {
        let q = p.drop_last();
        lemma_path_stays_marked(n, blk, vs, q);
        assert(adjacent(p[p.len() - 2], p[p.len() - 1]));
    }
}

/// On a board with an empty obstacle set, every cell can be reached from
/// every cell: a walk that first closes the x gap and then the y gap is
/// always available, so the search never reports failure there.
pub proof fn lemma_free_board_reachable(
    n: int,
    blk: Set<(int, int)>,
    sx: int,
    sy: int,
    tx: int,
    ty: int,
)
    requires
        forall|c: (int, int)| !blk.contains(c),
        valid_cell(n, sx, sy),
        valid_cell(n, tx, ty),
    ensures
        reachable(n, blk, sx, sy, tx, ty),
        exists|p: Seq<(int, int)>|
            #![trigger path_ok(n, blk, p)]
            path_ok(n, blk, p) && p.first() == (sx, sy) && p.last() == (tx, ty) && p.len()
                == crate::grid::manhattan(sx, sy, tx, ty) + 1,
    decreases crate::grid::manhattan(sx, sy, tx, ty),
{
    if sx == tx && sy == ty {
        let p = seq![(sx, sy)];
        assert(path_ok(n, blk, p));
        assert(p.first() == (sx, sy) && p.last() == (tx, ty));
    } else {
        let c: (int, int) = if tx < sx {
            (tx + 1, ty)
        } else if tx > sx {
            (tx - 1, ty)
        } else if ty < sy {
            (tx, ty + 1)
        } else {
            (tx, ty - 1)
        };
        lemma_free_board_reachable(n, blk, sx, sy, c.0, c.1);
        let p = choose|p: Seq<(int, int)>|
            #![trigger path_ok(n, blk, p)]
            path_ok(n, blk, p) && p.first() == (sx, sy) && p.last() == c && p.len()
                == crate::grid::manhattan(sx, sy, c.0, c.1) + 1;
        lemma_path_extend(n, blk, p, (tx, ty));
    }
}

/// A walk is never shorter than the Manhattan distance between its ends
/// (counted in cells: distance plus one).
pub proof fn lemma_path_len_ge_manhattan(n: int, blk: Set<(int, int)>, p: Seq<(int, int)>)
    requires
        path_ok(n, blk, p),
    ensures
        p.len() >= crate::grid::manhattan(p.first().0, p.first().1, p.last().0, p.last().1) + 1,
    decreases p.len(),
{
    if p.len() > 1 {
        let q = p.drop_last();
        lemma_path_len_ge_manhattan(n, blk, q);
        assert(adjacent(p[p.len() - 2], p[p.len() - 1]));
        assert(q.last() == p[p.len() - 2]);
    }
}

/// Dropping the first cell of a walk leaves a walk.
pub proof fn lemma_path_suffix(n: int, blk: Set<(int, int)>, p: Seq<(int, int)>)
    requires
        path_ok(n, blk, p),
        p.len() >= 2,
    ensures
        path_ok(n, blk, p.subrange(1, p.len() as int)),
        p.subrange(1, p.len() as int).first() == p[1],
        p.subrange(1, p.len() as int).last() == p.last(),
        p.subrange(1, p.len() as int).len() == p.len() - 1,
    decreases p.len(),
{
    let q = p.subrange(1, p.len() as int);
    if p.len() == 2 {
        assert(q =~= seq![p[1]]);
        assert(path_ok(n, blk, q));
    } else {
        let pp = p.drop_last();
        lemma_path_suffix(n, blk, pp);
        assert(q.drop_last() =~= pp.subrange(1, pp.len() as int));
        assert(q[q.len() - 2] == p[p.len() - 2]);
        assert(q[q.len() - 1] == p[p.len() - 1]);
        assert(adjacent(p[p.len() - 2], p[p.len() - 1]));
    }
}

/// On an obstacle-free board, the first step of a shortest walk strictly
/// decreases the Manhattan distance to the target: such a walk is exactly
/// as long as that distance, so each of its steps closes in by one.
pub proof fn lemma_shortest_step_decreases_manhattan(
    n: int,
    blk: Set<(int, int)>,
    sx: int,
    sy: int,
    tx: int,
    ty: int,
    p: Seq<(int, int)>,
)
    requires
        forall|c: (int, int)| !blk.contains(c),
        valid_cell(n, sx, sy),
        valid_cell(n, tx, ty),
        !(tx == sx && ty == sy),
        path_ok(n, blk, p),
        p.len() >= 2,
        p.first() == (sx, sy),
        p.last() == (tx, ty),
        forall|q: Seq<(int, int)>|
            #![trigger path_ok(n, blk, q)]
            path_ok(n, blk, q) && q.first() == (sx, sy) && q.last() == (tx, ty) ==> q.len()
                >= p.len(),
    ensures
        crate::grid::manhattan(p[1].0, p[1].1, tx, ty) == crate::grid::manhattan(sx, sy, tx, ty)
            - 1,
{
    let m = crate::grid::manhattan(sx, sy, tx, ty);
    // a straight walk of exactly the Manhattan length exists
    lemma_free_board_reachable(n, blk, sx, sy, tx, ty);
    let q0 = choose|q: Seq<(int, int)>|
        #![trigger path_ok(n, blk, q)]
        path_ok(n, blk, q) && q.first() == (sx, sy) && q.last() == (tx, ty) && q.len() == m + 1;
    assert(p.len() <= m + 1);
    // and no walk is shorter
    lemma_path_len_ge_manhattan(n, blk, p);
    assert(p.len() == m + 1);
    // the rest of the walk must cover the remaining distance
    lemma_path_suffix(n, blk, p);
    let suf = p.subrange(1, p.len() as int);
    lemma_path_len_ge_manhattan(n, blk, suf);
    assert(crate::grid::manhattan(p[1].0, p[1].1, tx, ty) <= m - 1);
    // one step changes the distance by at most one
    lemma_path_cell(n, blk, p, 1);
    assert(adjacent((sx, sy), (p[1].0, p[1].1)));
}

/// Trapped detection: when every cell adjacent to the start is off the
/// board or in the obstacle set, no other cell can be reached at all.
pub proof fn lemma_enclosed_unreachable(
    n: int,
    blk: Set<(int, int)>,
    sx: int,
    sy: int,
    tx: int,
    ty: int,
)
    requires
        forall|x: int, y: int|
            #[trigger] adjacent((sx, sy), (x, y)) ==> !valid_cell(n, x, y) || blk.contains((x, y)),
        !(tx == sx && ty == sy),
    ensures
        !reachable(n, blk, sx, sy, tx, ty),
{
    if reachable(n, blk, sx, sy, tx, ty) {
        let p = choose|p: Seq<(int, int)>|
            #![trigger path_ok(n, blk, p)]
            path_ok(n, blk, p) && p.first() == (sx, sy) && p.last() == (tx, ty);
        assert(p.len() >= 2);
        lemma_path_cell(n, blk, p, 1);
        assert(adjacent((sx, sy), (p[1].0, p[1].1)));
        assert(p[1] == (p[1].0, p[1].1));
        assert(false);
    }
}

/// Whether one of the goal cells lies at `(x, y)`.
fn contains_cell(goals: &Vec<Pos>, x: i32, y: i32) -> (r: bool)
    ensures
        r == is_goal(goals@, x as int, y as int),
{
    let mut j: usize = 0;
    while j < goals.len()
        invariant
            j <= goals@.len(),
            forall|k: int| #![trigger goals@[k]] 0 <= k < j ==> !(goals@[k].x == x && goals@[k].y
                == y),
        decreases goals@.len() - j,
    {
        if goals[j].x == x && goals[j].y == y {
            return true;
        }
        j = j + 1;
    }
    false
}

/// One breadth-first expansion: discover, mark and enqueue every in-bounds,
/// unblocked, still unvisited neighbour of `cur`, recording the direction of
/// the first edge of a walk from `start` to it and the walk's length.
#[verifier::loop_isolation(false)]
#[verifier::rlimit(100)]
fn expand_cell(
    obst: &Obstacles,
    start: Pos,
    cur: Pos,
    visited: &mut Vec<bool>,
    firstdir: &mut Vec<i32>,
    dist: &mut Vec<i32>,
    queue: &mut Vec<Pos>,
    Ghost(qh): Ghost<int>,
)
    requires
        obst.wf(),
        valid_cell(obst.n as int, start.x as int, start.y as int),
        bfs_inv(
            obst.n as int,
            obst@,
            start,
            old(visited)@,
            old(firstdir)@,
            old(dist)@,
            old(queue)@,
        ),
        valid_cell(obst.n as int, cur.x as int, cur.y as int),
        0 <= qh < old(queue)@.len(),
        old(queue)@[qh] == cur,
        cur == start || first_dir_ok(
            obst.n as int,
            obst@,
            start,
            old(firstdir)@[cell_idx(obst.n as int, cur.x as int, cur.y as int)],
            cur,
            old(dist)@[cell_idx(obst.n as int, cur.x as int, cur.y as int)] + 1,
        ),
        old(dist)@[cell_idx(
            obst.n as int,
            old(queue)@.last().x as int,
            old(queue)@.last().y as int,
        )] <= old(dist)@[cell_idx(obst.n as int, cur.x as int, cur.y as int)] + 1,
        forall|i: int, x2: int, y2: int|
            #![trigger old(queue)@[i], marked(obst.n as int, old(visited)@, x2, y2)]
            0 <= i < qh && adjacent(
                (old(queue)@[i].x as int, old(queue)@[i].y as int),
                (x2, y2),
            ) && valid_cell(obst.n as int, x2, y2) && !obst@.contains((x2, y2)) ==> marked(
                obst.n as int,
                old(visited)@,
                x2,
                y2,
            ),
        dist_lower_inv(obst.n as int, obst@, start, old(visited)@, old(dist)@),
    ensures
        bfs_inv(
            obst.n as int,
            obst@,
            start,
            final(visited)@,
            final(firstdir)@,
            final(dist)@,
            final(queue)@,
        ),
        final(queue)@.len() >= old(queue)@.len(),
        forall|i: int|
            0 <= i < old(queue)@.len() ==> final(queue)@[i] == #[trigger] old(queue)@[i],
        forall|x: int, y: int|
            valid_cell(obst.n as int, x, y) && marked(obst.n as int, old(visited)@, x, y)
                ==> marked(obst.n as int, final(visited)@, x, y),
        forall|x: int, y: int|
            valid_cell(obst.n as int, x, y) && marked(obst.n as int, old(visited)@, x, y)
                ==> final(dist)@[cell_idx(obst.n as int, x, y)] == old(dist)@[cell_idx(
                obst.n as int,
                x,
                y,
            )],
        final(dist)@[cell_idx(
            obst.n as int,
            final(queue)@.last().x as int,
            final(queue)@.last().y as int,
        )] <= old(dist)@[cell_idx(obst.n as int, cur.x as int, cur.y as int)] + 1,
        dist_lower_inv(obst.n as int, obst@, start, final(visited)@, final(dist)@),
        forall|d: int|
            0 <= d < 4 && valid_cell(
                obst.n as int,
                cur.x + #[trigger] dir_dx(d),
                cur.y + dir_dy(d),
            ) && !obst@.contains((cur.x + dir_dx(d), cur.y + dir_dy(d))) ==> marked(
                obst.n as int,
                final(visited)@,
                cur.x + dir_dx(d),
                cur.y + dir_dy(d),
            ),
{
    let ghost n = obst.n as int;
    let ghost blk = obst@;
    let ghost vs0 = visited@;
    let ghost q0 = queue@;
    let ghost dist0 = dist@;
    let mut d: i32 = 0;
    while d < 4
        invariant
            0 <= d <= 4,
            bfs_inv(n, blk, start, visited@, firstdir@, dist@, queue@),
            queue@.len() >= q0.len(),
            forall|i: int| 0 <= i < q0.len() ==> queue@[i] == #[trigger] q0[i],
            forall|x: int, y: int|
                valid_cell(n, x, y) && marked(n, vs0, x, y) ==> marked(n, visited@, x, y),
            forall|x: int, y: int|
                valid_cell(n, x, y) && marked(n, vs0, x, y) ==> dist@[cell_idx(n, x, y)] == dist0[
                    cell_idx(n, x, y)],
            forall|dd: int|
                0 <= dd < d && valid_cell(n, cur.x + #[trigger] dir_dx(dd), cur.y + dir_dy(dd))
                    && !blk.contains((cur.x + dir_dx(dd), cur.y + dir_dy(dd))) ==> marked(
                    n,
                    visited@,
                    cur.x + dir_dx(dd),
                    cur.y + dir_dy(dd),
                ),
            cur == start || first_dir_ok(
                n,
                blk,
                start,
                firstdir@[cell_idx(n, cur.x as int, cur.y as int)],
                cur,
                dist@[cell_idx(n, cur.x as int, cur.y as int)] + 1,
            ),
            queue@[qh] == cur,
            dist@[cell_idx(n, cur.x as int, cur.y as int)] == dist0[cell_idx(
                n,
                cur.x as int,
                cur.y as int,
            )],
            dist@[cell_idx(n, queue@.last().x as int, queue@.last().y as int)] <= dist@[cell_idx(
                n,
                cur.x as int,
                cur.y as int,
            )] + 1,
            forall|i: int, x2: int, y2: int|
                #![trigger queue@[i], marked(n, visited@, x2, y2)]
                0 <= i < qh && adjacent((queue@[i].x as int, queue@[i].y as int), (x2, y2))
                    && valid_cell(n, x2, y2) && !blk.contains((x2, y2)) ==> marked(
                    n,
                    visited@,
                    x2,
                    y2,
                ),
            dist_lower_inv(n, blk, start, visited@, dist@),
        decreases 4 - d,
    {
        let (ddx, ddy) = dir_delta(d);
        let nx = cur.x + ddx;
        let ny = cur.y + ddy;
        if 1 <= nx && nx <= obst.n && 1 <= ny && ny <= obst.n {
            if !obst.blocked(nx, ny) {
                proof {
                    assert(!blk.contains((nx as int, ny as int)));
                }
                let cidx = cell_index(obst.n, nx, ny);
                if !visited[cidx] {
                    let ghost prev_vs = visited@;
                    let ghost prev_q = queue@;
                    let ghost prev_dist = dist@;
                    proof {
                        lemma_count_true_le(visited@);
                        lemma_cell_idx_bounds(n, start.x as int, start.y as int);
                        lemma_cell_idx_bounds(n, cur.x as int, cur.y as int);
                    }
                    let kidx = cell_index(obst.n, cur.x, cur.y);
                    let curd = dist[kidx];
                    let fdir: i32 = if cur.x == start.x && cur.y == start.y {
                        d
                    } else {
                        firstdir[kidx]
                    };
                    visited[cidx] = true;
                    firstdir[cidx] = fdir;
                    dist[cidx] = curd + 1;
                    queue.push(Pos { x: nx, y: ny });
                    proof {
                        lemma_count_true_update(prev_vs, cell_idx(n, nx as int, ny as int));
                        let nq = queue@.len() - 1;
                        assert(queue@[nq] == Pos { x: nx, y: ny });
                        // the new cell is not the cell being expanded
                        if cell_idx(n, cur.x as int, cur.y as int) == cell_idx(
                            n,
                            nx as int,
                            ny as int,
                        ) {
                            lemma_cell_idx_injective(
                                n,
                                cur.x as int,
                                cur.y as int,
                                nx as int,
                                ny as int,
                            );
                            assert(false);
                        }
                        crate::grid::lemma_step_adjacent(cur.x as int, cur.y as int, d as int);
                        assert(first_dir_ok(n, blk, start, fdir, Pos { x: nx, y: ny }, curd + 2))
                            by {
                            if cur == start {
                                let p = seq![
                                    (start.x as int, start.y as int),
                                    (nx as int, ny as int),
                                ];
                                assert(p.drop_last() =~= seq![(start.x as int, start.y as int)]);
                                assert(path_ok(n, blk, p.drop_last()));
                                assert(p[1] == (start.x + dir_dx(fdir as int), start.y + dir_dy(
                                    fdir as int,
                                )));
                                assert(adjacent(p[p.len() - 2], p[p.len() - 1]));
                                assert(path_ok(n, blk, p));
                                assert(curd == 0);
                            } else {
                                let p0 = choose|p: Seq<(int, int)>|
                                    #![trigger path_ok(n, blk, p)]
                                    path_ok(n, blk, p) && p.len() == curd + 1 && p.len() >= 2
                                        && p.first() == (start.x as int, start.y as int)
                                        && p.last() == (cur.x as int, cur.y as int) && p[1] == (
                                    start.x + dir_dx(fdir as int),
                                    start.y + dir_dy(fdir as int),
                                    );
                                lemma_path_extend(n, blk, p0, (nx as int, ny as int));
                            }
                        }
                        // the recorded data of older cells are untouched
                        assert forall|i: int|
                            #![trigger queue@[i]]
                            0 < i < queue@.len() implies queue@[i] != start && first_dir_ok(
                            n,
                            blk,
                            start,
                            firstdir@[cell_idx(n, queue@[i].x as int, queue@[i].y as int)],
                            queue@[i],
                            dist@[cell_idx(n, queue@[i].x as int, queue@[i].y as int)] + 1,
                        ) by {
                            if i < nq {
                                assert(queue@[i] == prev_q[i]);
                                let ci = cell_idx(n, queue@[i].x as int, queue@[i].y as int);
                                lemma_cell_idx_bounds(n, queue@[i].x as int, queue@[i].y as int);
                                if ci == cell_idx(n, nx as int, ny as int) {
                                    // impossible: the new cell was unvisited, old queue
                                    // cells are all marked
                                    lemma_cell_idx_injective(
                                        n,
                                        queue@[i].x as int,
                                        queue@[i].y as int,
                                        nx as int,
                                        ny as int,
                                    );
                                    assert(marked(n, prev_vs, nx as int, ny as int));
                                }
                            } else {
                                // the new cell: it is not the start, which was marked
                                assert(marked(n, prev_vs, start.x as int, start.y as int));
                                if nx == start.x && ny == start.y {
                                    assert(marked(n, prev_vs, nx as int, ny as int));
                                }
                                assert(firstdir@[cell_idx(n, nx as int, ny as int)] == fdir);
                                assert(dist@[cell_idx(n, nx as int, ny as int)] == curd + 1);
                            }
                        }
                        // recorded distances stay within their queue positions
                        assert forall|i: int|
                            #![trigger queue@[i]]
                            0 <= i < queue@.len() implies valid_cell(
                            n,
                            queue@[i].x as int,
                            queue@[i].y as int,
                        ) && marked(n, visited@, queue@[i].x as int, queue@[i].y as int) && 0 <= dist@[
                            cell_idx(n, queue@[i].x as int, queue@[i].y as int)] <= i by {
                            lemma_cell_idx_bounds(n, queue@[i].x as int, queue@[i].y as int);
                            if i < nq {
                                assert(queue@[i] == prev_q[i]);
                                let ci = cell_idx(n, queue@[i].x as int, queue@[i].y as int);
                                if ci == cell_idx(n, nx as int, ny as int) {
                                    lemma_cell_idx_injective(
                                        n,
                                        queue@[i].x as int,
                                        queue@[i].y as int,
                                        nx as int,
                                        ny as int,
                                    );
                                    assert(marked(n, prev_vs, nx as int, ny as int));
                                }
                                assert(marked(n, prev_vs, queue@[i].x as int, queue@[i].y as int));
                            } else {
                                assert(dist@[cell_idx(n, nx as int, ny as int)] == curd + 1);
                                assert(curd <= qh);
                                assert(qh < q0.len() <= nq);
                            }
                        }
                        // the queue stays sorted by recorded distance
                        assert forall|i: int, j: int|
                            #![trigger queue@[i], queue@[j]]
                            0 <= i <= j < queue@.len() implies dist@[cell_idx(
                            n,
                            queue@[i].x as int,
                            queue@[i].y as int,
                        )] <= dist@[cell_idx(n, queue@[j].x as int, queue@[j].y as int)] by {
                            if i < nq {
                                assert(queue@[i] == prev_q[i]);
                                lemma_cell_idx_bounds(n, queue@[i].x as int, queue@[i].y as int);
                                if cell_idx(n, queue@[i].x as int, queue@[i].y as int) == cell_idx(
                                    n,
                                    nx as int,
                                    ny as int,
                                ) {
                                    lemma_cell_idx_injective(
                                        n,
                                        queue@[i].x as int,
                                        queue@[i].y as int,
                                        nx as int,
                                        ny as int,
                                    );
                                    assert(marked(n, prev_vs, nx as int, ny as int));
                                }
                                assert(dist@[cell_idx(n, queue@[i].x as int, queue@[i].y as int)]
                                    == prev_dist[cell_idx(
                                    n,
                                    queue@[i].x as int,
                                    queue@[i].y as int,
                                )]);
                            }
                            if j < nq {
                                assert(queue@[j] == prev_q[j]);
                                lemma_cell_idx_bounds(n, queue@[j].x as int, queue@[j].y as int);
                                if cell_idx(n, queue@[j].x as int, queue@[j].y as int) == cell_idx(
                                    n,
                                    nx as int,
                                    ny as int,
                                ) {
                                    lemma_cell_idx_injective(
                                        n,
                                        queue@[j].x as int,
                                        queue@[j].y as int,
                                        nx as int,
                                        ny as int,
                                    );
                                    assert(marked(n, prev_vs, nx as int, ny as int));
                                }
                                assert(dist@[cell_idx(n, queue@[j].x as int, queue@[j].y as int)]
                                    == prev_dist[cell_idx(
                                    n,
                                    queue@[j].x as int,
                                    queue@[j].y as int,
                                )]);
                            } else if i < nq {
                                // the new cell closes the queue at the old frontier level
                                assert(queue@[nq - 1] == prev_q[nq - 1]);
                                assert(prev_q[nq - 1] == prev_q.last());
                                assert(prev_dist[cell_idx(
                                    n,
                                    prev_q[i].x as int,
                                    prev_q[i].y as int,
                                )] <= prev_dist[cell_idx(
                                    n,
                                    prev_q[nq - 1].x as int,
                                    prev_q[nq - 1].y as int,
                                )]);
                                assert(prev_q[qh] == cur);
                                assert(dist@[cell_idx(n, queue@[j].x as int, queue@[j].y as int)]
                                    == curd + 1);
                            }
                        }
                        // marking is monotone, old distances keep their values
                        assert forall|x: int, y: int|
                            valid_cell(n, x, y) && marked(n, vs0, x, y) implies marked(
                            n,
                            visited@,
                            x,
                            y,
                        ) && dist@[cell_idx(n, x, y)] == dist0[cell_idx(n, x, y)] by {
                            lemma_cell_idx_bounds(n, x, y);
                            assert(marked(n, prev_vs, x, y));
                            if cell_idx(n, x, y) == cell_idx(n, nx as int, ny as int) {
                                lemma_cell_idx_injective(n, x, y, nx as int, ny as int);
                                assert(marked(n, prev_vs, nx as int, ny as int));
                            }
                        }
                        // neighbours handled earlier stay marked
                        assert forall|dd: int|
                            0 <= dd < d && valid_cell(
                                n,
                                cur.x + #[trigger] dir_dx(dd),
                                cur.y + dir_dy(dd),
                            ) && !blk.contains((cur.x + dir_dx(dd), cur.y + dir_dy(dd)))
                            implies marked(
                            n,
                            visited@,
                            cur.x + dir_dx(dd),
                            cur.y + dir_dy(dd),
                        ) by {
                            lemma_cell_idx_bounds(n, cur.x + dir_dx(dd), cur.y + dir_dy(dd));
                            assert(marked(n, prev_vs, cur.x + dir_dx(dd), cur.y + dir_dy(dd)));
                        }
                        // every marked cell still sits in the queue
                        assert forall|x: int, y: int|
                            valid_cell(n, x, y) && marked(n, visited@, x, y) implies exists|i: int|
                            #![trigger queue@[i]]
                            0 <= i < queue@.len() && queue@[i].x == x && queue@[i].y == y by {
                            lemma_cell_idx_bounds(n, x, y);
                            if cell_idx(n, x, y) == cell_idx(n, nx as int, ny as int) {
                                lemma_cell_idx_injective(n, x, y, nx as int, ny as int);
                                assert(queue@[nq].x == x && queue@[nq].y == y);
                            } else {
                                assert(marked(n, prev_vs, x, y));
                                let i = choose|i: int|
                                    #![trigger prev_q[i]]
                                    0 <= i < prev_q.len() && prev_q[i].x == x && prev_q[i].y == y;
                                assert(queue@[i].x == x && queue@[i].y == y);
                            }
                        }
                        // processed cells keep their closure
                        assert forall|i: int, x2: int, y2: int|
                            #![trigger queue@[i], marked(n, visited@, x2, y2)]
                            0 <= i < qh && adjacent((queue@[i].x as int, queue@[i].y as int), (
                            x2,
                            y2,
                        )) && valid_cell(n, x2, y2) && !blk.contains((x2, y2)) implies marked(
                            n,
                            visited@,
                            x2,
                            y2,
                        ) by {
                            assert(queue@[i] == prev_q[i]);
                            lemma_cell_idx_bounds(n, x2, y2);
                            assert(marked(n, prev_vs, x2, y2));
                        }
                        // a walk to a discovered cell is never shorter than recorded
                        assert(dist_lower_inv(n, blk, start, visited@, dist@)) by {
                            assert forall|p: Seq<(int, int)>|
                                #![trigger path_ok(n, blk, p)]
                                path_ok(n, blk, p) && p.first() == (
                                start.x as int,
                                start.y as int,
                                ) && valid_cell(n, p.last().0, p.last().1) && marked(
                                n,
                                visited@,
                                p.last().0,
                                p.last().1,
                            ) implies p.len() >= dist@[cell_idx(n, p.last().0, p.last().1)]
                                + 1 by {
                                lemma_cell_idx_bounds(n, p.last().0, p.last().1);
                                if cell_idx(n, p.last().0, p.last().1) == cell_idx(
                                    n,
                                    nx as int,
                                    ny as int,
                                ) {
                                    lemma_cell_idx_injective(
                                        n,
                                        p.last().0,
                                        p.last().1,
                                        nx as int,
                                        ny as int,
                                    );
                                    lemma_unvisited_path_long(
                                        n,
                                        blk,
                                        start,
                                        prev_vs,
                                        prev_dist,
                                        prev_q,
                                        qh,
                                        p,
                                    );
                                    assert(prev_q[qh] == cur);
                                } else {
                                    assert(marked(n, prev_vs, p.last().0, p.last().1));
                                    assert(p.len() >= prev_dist[cell_idx(
                                        n,
                                        p.last().0,
                                        p.last().1,
                                    )] + 1);
                                }
                            }
                        }
                    }
                }
            }
        }
        d = d + 1;
    }
}

/// Breadth-first search from `start` for the goal set: the direction of the
/// first step of a shortest walk to a goal cell, `None` when no goal can be
/// reached or the start cell is itself a goal (no move is needed then, and
/// the caller must treat that case itself).
#[verifier::loop_isolation(false)]
#[verifier::rlimit(100)]
pub fn first_step_to(obst: &Obstacles, start: Pos, goals: &Vec<Pos>) -> (r: Option<i32>)
    requires
        obst.wf(),
        valid_cell(obst.n as int, start.x as int, start.y as int),
        forall|j: int|
            #![trigger goals@[j]]
            0 <= j < goals@.len() ==> valid_cell(
                obst.n as int,
                goals@[j].x as int,
                goals@[j].y as int,
            ),
    ensures
        match r {
            Option::None => is_goal(goals@, start.x as int, start.y as int) || !reaches_some_goal(
                obst.n as int,
                obst@,
                goals@,
                start.x as int,
                start.y as int,
            ),
            Option::Some(d) => {
                &&& !is_goal(goals@, start.x as int, start.y as int)
                &&& 0 <= d < 4
                &&& valid_cell(obst.n as int, start.x + dir_dx(d as int), start.y + dir_dy(d as int))
                &&& !obst@.contains((start.x + dir_dx(d as int), start.y + dir_dy(d as int)))
                &&& exists|p: Seq<(int, int)>|
                    #![trigger path_ok(obst.n as int, obst@, p)]
                    path_ok(obst.n as int, obst@, p) && p.len() >= 2 && p.first() == (
                    start.x as int,
                    start.y as int,
                    ) && is_goal(goals@, p.last().0, p.last().1) && p[1] == (
                    start.x + dir_dx(d as int),
                    start.y + dir_dy(d as int),
                    ) && (forall|q: Seq<(int, int)>|
                        #![trigger path_ok(obst.n as int, obst@, q)]
                        path_ok(obst.n as int, obst@, q) && q.first() == (
                        start.x as int,
                        start.y as int,
                        ) && is_goal(goals@, q.last().0, q.last().1) ==> q.len() >= p.len())
            },
        },
{
    let ghost n = obst.n as int;
    let ghost blk = obst@;
    let ghost s0 = (start.x as int, start.y as int);
    if contains_cell(goals, start.x, start.y) {
        return None;
    }
    let mut visited: Vec<bool> = crate::grid::false_grid(obst.n);
    let mut firstdir: Vec<i32> = crate::grid::zero_grid(obst.n);
    let mut dist: Vec<i32> = crate::grid::zero_grid(obst.n);
    let mut queue: Vec<Pos> = Vec::new();
    let mut qhead: usize = 0;

    proof {
        lemma_count_true_all_false(visited@);
        lemma_cell_idx_bounds(n, s0.0, s0.1);
    }
    let sidx = cell_index(obst.n, start.x, start.y);
    let ghost pre = visited@;
    visited[sidx] = true;
    queue.push(start);
    proof {
        lemma_count_true_update(pre, cell_idx(n, s0.0, s0.1));
        assert(queue@[0] == start);
        assert forall|x: int, y: int| valid_cell(n, x, y) && marked(n, visited@, x, y)
            implies exists|i: int|
            #![trigger queue@[i]]
            0 <= i < queue@.len() && queue@[i].x == x && queue@[i].y == y by {
            lemma_cell_idx_bounds(n, x, y);
            if cell_idx(n, x, y) == cell_idx(n, s0.0, s0.1) {
                lemma_cell_idx_injective(n, x, y, s0.0, s0.1);
                assert(queue@[0].x == x && queue@[0].y == y);
            }
        }
        // the only discovered cell is the start, at recorded distance zero
        assert(dist_lower_inv(n, blk, start, visited@, dist@)) by {
            assert forall|p: Seq<(int, int)>|
                #![trigger path_ok(n, blk, p)]
                path_ok(n, blk, p) && p.first() == s0 && valid_cell(n, p.last().0, p.last().1)
                    && marked(n, visited@, p.last().0, p.last().1) implies p.len() >= dist@[
                cell_idx(n, p.last().0, p.last().1)] + 1 by {
                lemma_cell_idx_bounds(n, p.last().0, p.last().1);
                if cell_idx(n, p.last().0, p.last().1) == cell_idx(n, s0.0, s0.1) {
                    lemma_cell_idx_injective(n, p.last().0, p.last().1, s0.0, s0.1);
                }
            }
        }
    }

    while qhead < queue.len()
        invariant
            bfs_inv(n, blk, start, visited@, firstdir@, dist@, queue@),
            qhead <= queue@.len(),
            dist_lower_inv(n, blk, start, visited@, dist@),
            qhead < queue@.len() ==> dist@[cell_idx(
                n,
                queue@.last().x as int,
                queue@.last().y as int,
            )] <= dist@[cell_idx(n, queue@[qhead as int].x as int, queue@[qhead as int].y as int)]
                + 1,
            forall|i: int|
                #![trigger queue@[i]]
                0 <= i < qhead ==> !is_goal(goals@, queue@[i].x as int, queue@[i].y as int),
            forall|i: int, x2: int, y2: int|
                #![trigger queue@[i], marked(n, visited@, x2, y2)]
                0 <= i < qhead && adjacent((queue@[i].x as int, queue@[i].y as int), (x2, y2))
                    && valid_cell(n, x2, y2) && !blk.contains((x2, y2)) ==> marked(
                    n,
                    visited@,
                    x2,
                    y2,
                ),
        decreases n * n - qhead,
    {
        proof {
            lemma_count_true_le(visited@);
        }
        let cur = queue[qhead];
        if contains_cell(goals, cur.x, cur.y) {
            // the start cell is no goal, so `cur` was discovered by expansion
            // and carries the first step of a walk from the start to it
            assert(cur != start);
            assert(qhead > 0);
            let kidx = cell_index(obst.n, cur.x, cur.y);
            let fd = firstdir[kidx];
            proof {
                let curd = dist@[cell_idx(n, cur.x as int, cur.y as int)] as int;
                let p = choose|p: Seq<(int, int)>|
                    #![trigger path_ok(n, blk, p)]
                    path_ok(n, blk, p) && p.len() == curd + 1 && p.len() >= 2 && p.first() == s0
                        && p.last() == (cur.x as int, cur.y as int) && p[1] == (
                    start.x + dir_dx(fd as int),
                    start.y + dir_dy(fd as int),
                    );
                lemma_path_cell(n, blk, p, 1);
                assert(valid_cell(n, p[1].0, p[1].1) && !blk.contains(p[1]));
                // no walk from the start to any goal is shorter: a goal in
                // the queue sits at or past the frontier, a goal outside the
                // discovered set is further still
                assert forall|q2: Seq<(int, int)>|
                    #![trigger path_ok(n, blk, q2)]
                    path_ok(n, blk, q2) && q2.first() == s0 && is_goal(
                    goals@,
                    q2.last().0,
                    q2.last().1,
                ) implies q2.len() >= p.len() by {
                    let gx = q2.last().0;
                    let gy = q2.last().1;
                    let j = choose|j: int|
                        #![trigger goals@[j]]
                        0 <= j < goals@.len() && goals@[j].x == gx && goals@[j].y == gy;
                    assert(valid_cell(n, gx, gy));
                    lemma_cell_idx_bounds(n, gx, gy);
                    if marked(n, visited@, gx, gy) {
                        let i = choose|i: int|
                            #![trigger queue@[i]]
                            0 <= i < queue@.len() && queue@[i].x == gx && queue@[i].y == gy;
                        assert(is_goal(goals@, queue@[i].x as int, queue@[i].y as int));
                        assert(i >= qhead);
                        assert(dist@[cell_idx(n, queue@[qhead as int].x as int, queue@[
                            qhead as int].y as int)] <= dist@[cell_idx(
                            n,
                            queue@[i].x as int,
                            queue@[i].y as int,
                        )]);
                        assert(q2.len() >= dist@[cell_idx(n, gx, gy)] + 1);
                    } else {
                        lemma_unvisited_path_long(
                            n,
                            blk,
                            start,
                            visited@,
                            dist@,
                            queue@,
                            qhead as int,
                            q2,
                        );
                    }
                }
            }
            return Some(fd);
        }
        let ghost qpre = queue@;
        let ghost vspre = visited@;
        let ghost distpre = dist@;
        expand_cell(
            obst,
            start,
            cur,
            &mut visited,
            &mut firstdir,
            &mut dist,
            &mut queue,
            Ghost(qhead as int),
        );
        qhead = qhead + 1;
        proof {
            assert forall|i: int| 0 <= i < qpre.len() implies queue@[i] == #[trigger] qpre[i] by {}
            assert(queue@[qhead - 1] == cur);
            // the frontier only moves to cells at or past the old level
            if qhead < queue@.len() {
                assert(dist@[cell_idx(n, cur.x as int, cur.y as int)] == distpre[cell_idx(
                    n,
                    cur.x as int,
                    cur.y as int,
                )]);
                assert(dist@[cell_idx(n, cur.x as int, cur.y as int)] <= dist@[cell_idx(
                    n,
                    queue@[qhead as int].x as int,
                    queue@[qhead as int].y as int,
                )]);
            }
            assert forall|i: int|
                #![trigger queue@[i]]
                0 <= i < qhead implies !is_goal(goals@, queue@[i].x as int, queue@[i].y as int) by {
                assert(queue@[i] == qpre[i]);
            }
            assert forall|i: int, x2: int, y2: int|
                #![trigger queue@[i], marked(n, visited@, x2, y2)]
                0 <= i < qhead && adjacent((queue@[i].x as int, queue@[i].y as int), (x2, y2))
                    && valid_cell(n, x2, y2) && !blk.contains((x2, y2)) implies marked(
                n,
                visited@,
                x2,
                y2,
            ) by {
                assert(queue@[i] == qpre[i]);
                if i == qhead - 1 {
                    crate::grid::lemma_adjacent_is_step(
                        (queue@[i].x as int, queue@[i].y as int),
                        (x2, y2),
                    );
                } else {
                    assert(marked(n, vspre, x2, y2));
                }
            }
        }
    }
    proof {
        assert(qhead == queue@.len());
        assert(!reaches_some_goal(n, blk, goals@, s0.0, s0.1)) by {
            if reaches_some_goal(n, blk, goals@, s0.0, s0.1) {
                let p = choose|p: Seq<(int, int)>|
                    #![trigger path_ok(n, blk, p)]
                    path_ok(n, blk, p) && p.first() == s0 && is_goal(
                        goals@,
                        p.last().0,
                        p.last().1,
                    );
                assert forall|x1: int, y1: int, x2: int, y2: int|
                    #![trigger marked(n, visited@, x1, y1), marked(n, visited@, x2, y2)]
                    valid_cell(n, x1, y1) && marked(n, visited@, x1, y1) && adjacent(
                    (x1, y1),
                    (x2, y2),
                ) && valid_cell(n, x2, y2) && !blk.contains((x2, y2)) implies marked(
                    n,
                    visited@,
                    x2,
                    y2,
                ) by {
                    let i = choose|i: int|
                        #![trigger queue@[i]]
                        0 <= i < queue@.len() && queue@[i].x == x1 && queue@[i].y == y1;
                    assert(adjacent((queue@[i].x as int, queue@[i].y as int), (x2, y2)));
                }
                lemma_path_stays_marked(n, blk, visited@, p);
                let i = choose|i: int|
                    #![trigger queue@[i]]
                    0 <= i < queue@.len() && queue@[i].x == p.last().0 && queue@[i].y == p.last().1;
                assert(!is_goal(goals@, queue@[i].x as int, queue@[i].y as int));
            }
        }
    }
    None
}

/// Breadth-first reachability: true exactly when a walk of in-bounds,
/// unblocked cells leads from `start` to the target cell `(tx, ty)` (the
/// start cell itself is not tested against the obstacle set, and the query
/// is trivially true when the target is the start).
pub fn is_reachable(obst: &Obstacles, start: Pos, tx: i32, ty: i32) -> (r: bool)
    requires
        obst.wf(),
        valid_cell(obst.n as int, start.x as int, start.y as int),
        valid_cell(obst.n as int, tx as int, ty as int),
    ensures
        r == reachable(obst.n as int, obst@, start.x as int, start.y as int, tx as int, ty as int),
{
    let ghost n = obst.n as int;
    let ghost blk = obst@;
    let ghost s0 = (start.x as int, start.y as int);
    if start.x == tx && start.y == ty {
        proof {
            let p = seq![s0];
            assert(path_ok(n, blk, p));
            assert(p.first() == s0 && p.last() == (tx as int, ty as int));
        }
        return true;
    }
    let mut goals: Vec<Pos> = Vec::new();
    goals.push(Pos { x: tx, y: ty });
    let r = first_step_to(obst, start, &goals);
    proof {
        assert(goals@[0] == Pos { x: tx, y: ty });
        match r {
            Option::Some(d) => {
                let p = choose|p: Seq<(int, int)>|
                    #![trigger path_ok(n, blk, p)]
                    path_ok(n, blk, p) && p.len() >= 2 && p.first() == s0 && is_goal(
                    goals@,
                    p.last().0,
                    p.last().1,
                    ) && p[1] == (start.x + dir_dx(d as int), start.y + dir_dy(d as int));
                assert(p.last() == (tx as int, ty as int));
            },
            Option::None => {
                assert(!is_goal(goals@, s0.0, s0.1));
                if reachable(n, blk, s0.0, s0.1, tx as int, ty as int) {
                    let p = choose|p: Seq<(int, int)>|
                        #![trigger path_ok(n, blk, p)]
                        path_ok(n, blk, p) && p.first() == s0 && p.last() == (tx as int, ty as int);
                    assert(is_goal(goals@, p.last().0, p.last().1));
                    assert(reaches_some_goal(n, blk, goals@, s0.0, s0.1));
                }
            },
        }
    }
    match r {
        Option::Some(_) => true,
        Option::None => false,
    }
}

} // verus!
