//! The danger map: which cells the agent must not enter this tick, derived
//! from its own body and from opposing snakes. Two strictness levels exist,
//! as configuration: the search pass also treats every cell next to an
//! opposing head as unsafe (a possible head-on collision next tick), the
//! survival fallback pass does not.

use vstd::prelude::*;
use crate::grid::{
    Obstacles, valid_cell, adjacent, dir_dx, dir_dy, dir_delta, MAX_BOARD, lemma_step_adjacent,
    lemma_adjacent_is_step,
};

verus! {

/// The `m`-th coordinate pair of a flat sequence of pairs (x coordinate).
pub open spec fn pair_x(s: Seq<i32>, m: int) -> i32 {
    s[2 * m]
}

/// The `m`-th coordinate pair of a flat sequence of pairs (y coordinate).
pub open spec fn pair_y(s: Seq<i32>, m: int) -> i32 {
    s[2 * m + 1]
}

/// `(x, y)` is one of the first `bound` coordinate pairs of `s`.
pub open spec fn in_pairs_upto(s: Seq<i32>, bound: int, x: int, y: int) -> bool {
    exists|m: int| 0 <= m < bound && #[trigger] pair_x(s, m) == x && pair_y(s, m) == y
}

/// `(x, y)` is one of the coordinate pairs of the flat sequence `s`.
pub open spec fn in_pairs(s: Seq<i32>, x: int, y: int) -> bool {
    in_pairs_upto(s, s.len() as int / 2, x, y)
}

/// Segment `j` of opponent `i` in a flat sequence of 4-segment bodies
/// (x coordinate).
pub open spec fn seg_x(others: Seq<i32>, i: int, j: int) -> i32 {
    others[8 * i + 2 * j]
}

/// Segment `j` of opponent `i` in a flat sequence of 4-segment bodies
/// (y coordinate).
pub open spec fn seg_y(others: Seq<i32>, i: int, j: int) -> i32 {
    others[8 * i + 2 * j + 1]
}

/// One of the first `bound` body segments of opponent `i` lies at `(x, y)`.
pub open spec fn opp_seg_upto(others: Seq<i32>, i: int, bound: int, x: int, y: int) -> bool {
    exists|j: int|
        0 <= j < bound && #[trigger] seg_x(others, i, j) == x && seg_y(others, i, j) == y
}

/// One of the first three body segments of opponent `i` lies at `(x, y)`.
pub open spec fn opp_body_hits(others: Seq<i32>, i: int, x: int, y: int) -> bool {
    opp_seg_upto(others, i, 3, x, y)
}

/// The head of opponent `i` is adjacent to `(x, y)`.
pub open spec fn opp_head_adj(others: Seq<i32>, i: int, x: int, y: int) -> bool {
    adjacent((seg_x(others, i, 0) as int, seg_y(others, i, 0) as int), (x, y))
}

/// One of the first `bound` opponents puts one of its first three segments
/// on `(x, y)`.
pub open spec fn opp_body_upto(others: Seq<i32>, bound: int, x: int, y: int) -> bool {
    exists|i: int| 0 <= i < bound && #[trigger] opp_body_hits(others, i, x, y)
}

/// One of the first `bound` opponents has its head adjacent to `(x, y)`.
pub open spec fn opp_adj_upto(others: Seq<i32>, bound: int, x: int, y: int) -> bool {
    exists|i: int| 0 <= i < bound && #[trigger] opp_head_adj(others, i, x, y)
}

/// `(x, y)` is one of the first `bound` cardinal steps away from `(hx, hy)`.
pub open spec fn ring_upto(hx: int, hy: int, bound: int, x: int, y: int) -> bool {
    exists|dd: int| 0 <= dd < bound && x == hx + #[trigger] dir_dx(dd) && y == hy + dir_dy(dd)
}

/// The occupancy of `g` is that of `g0` plus the first `bound` pairs of `s`.
pub open spec fn pairs_inv(g0: Obstacles, g: Obstacles, s: Seq<i32>, bound: int) -> bool {
    forall|x: int, y: int|
        valid_cell(g0.n as int, x, y) ==> (g.spec_blocked(x, y) <==> g0.spec_blocked(x, y)
            || in_pairs_upto(s, bound, x, y))
}

/// The occupancy of `g` is that of `g0` plus the first `bound` segments of
/// opponent `i`.
pub open spec fn segs_inv(g0: Obstacles, g: Obstacles, others: Seq<i32>, i: int, bound: int) -> bool {
    forall|x: int, y: int|
        valid_cell(g0.n as int, x, y) ==> (g.spec_blocked(x, y) <==> g0.spec_blocked(x, y)
            || opp_seg_upto(others, i, bound, x, y))
}

/// The occupancy of `g` is that of `g0` plus the first `bound` cells of the
/// ring around `(hx, hy)`.
pub open spec fn ring_inv(g0: Obstacles, g: Obstacles, hx: int, hy: int, bound: int) -> bool {
    forall|x: int, y: int|
        valid_cell(g0.n as int, x, y) ==> (g.spec_blocked(x, y) <==> g0.spec_blocked(x, y)
            || ring_upto(hx, hy, bound, x, y))
}

/// The occupancy of `g` is the own second segment plus the danger cells of
/// the first `bound` opponents.
pub open spec fn opps_inv(
    g: Obstacles,
    snake: Seq<i32>,
    others: Seq<i32>,
    inflate: bool,
    bound: int,
) -> bool {
    forall|x: int, y: int|
        valid_cell(g.n as int, x, y) ==> (g.spec_blocked(x, y) <==> (x == snake[2] && y
            == snake[3]) || opp_body_upto(others, bound, x, y) || (inflate && opp_adj_upto(
            others,
            bound,
            x,
            y,
        )))
}

/// The danger rule of the multi-agent scenario: the cell behind the agent's
/// own head, the first three segments of every opponent, and, on the strict
/// (`inflate`) level used by the search pass, every cell adjacent to an
/// opposing head.
pub open spec fn danger_spec(
    snake: Seq<i32>,
    others: Seq<i32>,
    inflate: bool,
    x: int,
    y: int,
) -> bool {
    ||| (x == snake[2] && y == snake[3])
    ||| opp_body_upto(others, others.len() as int / 8, x, y)
    ||| (inflate && opp_adj_upto(others, others.len() as int / 8, x, y))
}

/// Mark every coordinate pair of `pts` impassable; all other cells keep
/// their state.
#[verifier::loop_isolation(false)]
pub fn block_pairs(g: &mut Obstacles, pts: &[i32])
    requires
        old(g).wf(),
        pts@.len() % 2 == 0,
        forall|i: int| 0 <= i < pts@.len() ==> 1 <= #[trigger] pts@[i] <= old(g).n,
    ensures
        final(g).wf(),
        final(g).n == old(g).n,
        forall|x: int, y: int|
            valid_cell(old(g).n as int, x, y) ==> (final(g).spec_blocked(x, y) <==> old(
                g,
            ).spec_blocked(x, y) || in_pairs(pts@, x, y)),
{
    let ghost g0 = *g;
    let half: usize = pts.len() / 2;
    let mut m: usize = 0;
    while m < half
        invariant
            g.wf(),
            g.n == g0.n,
            m <= half,
            pairs_inv(g0, *g, pts@, m as int),
        decreases half - m,
    {
        let px = pts[2 * m];
        let py = pts[2 * m + 1];
        let ghost gp = *g;
        g.block(px, py);
        proof {
            assert(pair_x(pts@, m as int) == px && pair_y(pts@, m as int) == py);
            assert forall|x: int, y: int|
                valid_cell(g0.n as int, x, y) && g.spec_blocked(x, y) && !g0.spec_blocked(
                    x,
                    y,
                ) implies in_pairs_upto(pts@, m + 1, x, y) by {
                if x == px as int && y == py as int {
                    assert(pair_x(pts@, m as int) == x && pair_y(pts@, m as int) == y);
                    assert(in_pairs_upto(pts@, m + 1, x, y));
                } else {
                    assert(g.spec_blocked(x, y) == gp.spec_blocked(x, y));
                    let k = choose|k: int|
                        0 <= k < m && #[trigger] pair_x(pts@, k) == x && pair_y(pts@, k) == y;
                    assert(in_pairs_upto(pts@, m + 1, x, y));
                }
            }
            assert forall|x: int, y: int|
                valid_cell(g0.n as int, x, y) && (g0.spec_blocked(x, y) || in_pairs_upto(
                    pts@,
                    m + 1,
                    x,
                    y,
                )) implies g.spec_blocked(x, y) by {
                if g0.spec_blocked(x, y) {
                    assert(gp.spec_blocked(x, y));
                    assert(g.spec_blocked(x, y));
                } else {
                    let k = choose|k: int|
                        0 <= k < m + 1 && #[trigger] pair_x(pts@, k) == x && pair_y(pts@, k) == y;
                    if k < m {
                        assert(in_pairs_upto(pts@, m as int, x, y));
                        assert(gp.spec_blocked(x, y));
                        if !(x == px as int && y == py as int) {
                            assert(g.spec_blocked(x, y) == gp.spec_blocked(x, y));
                        }
                    } else {
                        assert(x == px as int && y == py as int);
                    }
                }
            }
            assert(pairs_inv(g0, *g, pts@, m + 1)) by {
                assert forall|x: int, y: int| valid_cell(g0.n as int, x, y) implies (
                g.spec_blocked(x, y) <==> g0.spec_blocked(x, y) || in_pairs_upto(
                    pts@,
                    m + 1,
                    x,
                    y,
                )) by {
                    let witness = in_pairs_upto(pts@, m + 1, x, y);
                    assert(g.spec_blocked(x, y) ==> g0.spec_blocked(x, y) || witness);
                    assert(g0.spec_blocked(x, y) || witness ==> g.spec_blocked(x, y));
                }
            }
        }
        m = m + 1;
    }
    proof {
        assert(half as int == pts@.len() as int / 2);
    }
}

/// Build the danger map of the multi-agent scenario (see `danger_spec`):
/// a pure function of the snapshot.
#[verifier::loop_isolation(false)]
#[verifier::rlimit(100)]
pub fn danger_cells(n: i32, snake: &Vec<i32>, others: &Vec<i32>, inflate: bool) -> (r: Obstacles)
    requires
        1 <= n <= MAX_BOARD,
        snake@.len() == 8,
        others@.len() % 8 == 0,
        forall|i: int| 0 <= i < snake@.len() ==> 1 <= #[trigger] snake@[i] <= n,
        forall|i: int| 0 <= i < others@.len() ==> 1 <= #[trigger] others@[i] <= n,
    ensures
        r.wf(),
        r.n == n,
        forall|x: int, y: int|
            valid_cell(n as int, x, y) ==> (r.spec_blocked(x, y) <==> danger_spec(
                snake@,
                others@,
                inflate,
                x,
                y,
            )),
{
    let mut g = Obstacles::new(n);
    g.block(snake[2], snake[3]);
    let k: usize = others.len() / 8;
    let mut i: usize = 0;
    while i < k
        invariant
            g.wf(),
            g.n == n,
            i <= k,
            opps_inv(g, snake@, others@, inflate, i as int),
        decreases k - i,
    {
        let ghost gi = g;
        let mut j: usize = 0;
        while j < 3
            invariant
                g.wf(),
                g.n == n,
                i < k,
                j <= 3,
                gi.n == n,
                opps_inv(gi, snake@, others@, inflate, i as int),
                segs_inv(gi, g, others@, i as int, j as int),
            decreases 3 - j,
        {
            let sx = others[8 * i + 2 * j];
            let sy = others[8 * i + 2 * j + 1];
            let ghost gp = g;
            g.block(sx, sy);
            proof {
                assert(seg_x(others@, i as int, j as int) == sx && seg_y(others@, i as int, j as int)
                    == sy);
                assert(segs_inv(gi, g, others@, i as int, j + 1)) by {
                    assert forall|x: int, y: int| valid_cell(n as int, x, y) implies (
                    g.spec_blocked(x, y) <==> gi.spec_blocked(x, y) || opp_seg_upto(
                        others@,
                        i as int,
                        j + 1,
                        x,
                        y,
                    )) by {
                        if x == sx as int && y == sy as int {
                            assert(seg_x(others@, i as int, j as int) == x && seg_y(
                                others@,
                                i as int,
                                j as int,
                            ) == y);
                            assert(opp_seg_upto(others@, i as int, j + 1, x, y));
                        } else {
                            assert(g.spec_blocked(x, y) == gp.spec_blocked(x, y));
                            if gp.spec_blocked(x, y) && !gi.spec_blocked(x, y) {
                                let jj = choose|jj: int|
                                    0 <= jj < j && #[trigger] seg_x(others@, i as int, jj) == x
                                        && seg_y(others@, i as int, jj) == y;
                                assert(opp_seg_upto(others@, i as int, j + 1, x, y));
                            }
                            if opp_seg_upto(others@, i as int, j + 1, x, y) {
                                let jj = choose|jj: int|
                                    0 <= jj < j + 1 && #[trigger] seg_x(others@, i as int, jj)
                                        == x && seg_y(others@, i as int, jj) == y;
                                assert(jj < j);
                                assert(opp_seg_upto(others@, i as int, j as int, x, y));
                            }
                        }
                    }
                }
            }
            j = j + 1;
        }
        let ghost gb = g;
        if inflate {
            let hx = others[8 * i];
            let hy = others[8 * i + 1];
            proof {
                assert(seg_x(others@, i as int, 0) == hx && seg_y(others@, i as int, 0) == hy);
            }
            let mut dc: i32 = 0;
            while dc < 4
                invariant
                    g.wf(),
                    g.n == n,
                    i < k,
                    0 <= dc <= 4,
                    hx == seg_x(others@, i as int, 0) && hy == seg_y(others@, i as int, 0),
                    gb.n == n,
                    ring_inv(gb, g, hx as int, hy as int, dc as int),
                decreases 4 - dc,
            {
                let (ddx, ddy) = dir_delta(dc);
                let ax = hx + ddx;
                let ay = hy + ddy;
                let ghost gp = g;
                if 1 <= ax && ax <= n && 1 <= ay && ay <= n {
                    g.block(ax, ay);
                }
                proof {
                    assert(ring_inv(gb, g, hx as int, hy as int, dc + 1)) by {
                    assert forall|x: int, y: int| valid_cell(n as int, x, y) implies (
                    g.spec_blocked(x, y) <==> gb.spec_blocked(x, y) || ring_upto(
                        hx as int,
                        hy as int,
                        dc + 1,
                        x,
                        y,
                    )) by {
                        if x == ax as int && y == ay as int {
                            assert(x == hx + dir_dx(dc as int) && y == hy + dir_dy(dc as int));
                            assert(ring_upto(hx as int, hy as int, dc + 1, x, y));
                        } else {
                            assert(g.spec_blocked(x, y) == gp.spec_blocked(x, y));
                            if gp.spec_blocked(x, y) && !gb.spec_blocked(x, y) {
                                let dd = choose|dd: int|
                                    0 <= dd < dc && x == hx + #[trigger] dir_dx(dd) && y == hy
                                        + dir_dy(dd);
                                assert(ring_upto(hx as int, hy as int, dc + 1, x, y));
                            }
                            if ring_upto(hx as int, hy as int, dc + 1, x, y) {
                                let dd = choose|dd: int|
                                    0 <= dd < dc + 1 && x == hx + #[trigger] dir_dx(dd) && y == hy
                                        + dir_dy(dd);
                                if dd == dc as int {
                                    assert(x == ax as int && y == ay as int);
                                    assert(false);
                                }
                                assert(ring_upto(hx as int, hy as int, dc as int, x, y));
                            }
                        }
                    }
                    }
                }
                dc = dc + 1;
            }
            proof {
                // four steps seen: the marked ring is exactly adjacency to the head
                assert forall|x: int, y: int| valid_cell(n as int, x, y) implies (g.spec_blocked(
                    x,
                    y,
                ) <==> gb.spec_blocked(x, y) || opp_head_adj(others@, i as int, x, y)) by {
                    if opp_head_adj(others@, i as int, x, y) {
                        lemma_adjacent_is_step((hx as int, hy as int), (x, y));
                        assert(ring_upto(hx as int, hy as int, 4, x, y));
                    }
                    if ring_upto(hx as int, hy as int, 4, x, y) {
                        let dd = choose|dd: int|
                            0 <= dd < 4 && x == hx + #[trigger] dir_dx(dd) && y == hy + dir_dy(dd);
                        lemma_step_adjacent(hx as int, hy as int, dd);
                        assert(opp_head_adj(others@, i as int, x, y));
                    }
                }
            }
        }
        proof {
            let li = i as int;
            assert(opps_inv(g, snake@, others@, inflate, li + 1)) by {
            assert forall|x: int, y: int| valid_cell(n as int, x, y) implies (g.spec_blocked(x, y)
                <==> (x == snake@[2] && y == snake@[3]) || opp_body_upto(others@, li + 1, x, y) || (
            inflate && opp_adj_upto(others@, li + 1, x, y))) by {
                // left to right: a blocked cell comes from an earlier opponent,
                // from this opponent's body or threat ring, or is the own segment
                if g.spec_blocked(x, y) {
                    if gi.spec_blocked(x, y) {
                        if !(x == snake@[2] && y == snake@[3]) {
                            if opp_body_upto(others@, li, x, y) {
                                let ii = choose|ii: int|
                                    0 <= ii < li && #[trigger] opp_body_hits(others@, ii, x, y);
                                assert(opp_body_upto(others@, li + 1, x, y));
                            } else {
                                let ii = choose|ii: int|
                                    0 <= ii < li && #[trigger] opp_head_adj(others@, ii, x, y);
                                assert(opp_adj_upto(others@, li + 1, x, y));
                            }
                        }
                    } else if gb.spec_blocked(x, y) {
                        assert(opp_seg_upto(others@, li, 3, x, y));
                        assert(opp_body_hits(others@, li, x, y));
                        assert(opp_body_upto(others@, li + 1, x, y));
                    } else {
                        assert(inflate && opp_head_adj(others@, li, x, y));
                        assert(opp_adj_upto(others@, li + 1, x, y));
                    }
                }
                // right to left: each witness marks the cell
                if x == snake@[2] && y == snake@[3] {
                    assert(gi.spec_blocked(x, y));
                }
                if opp_body_upto(others@, li + 1, x, y) {
                    let ii = choose|ii: int|
                        0 <= ii < li + 1 && #[trigger] opp_body_hits(others@, ii, x, y);
                    if ii < li {
                        assert(opp_body_upto(others@, li, x, y));
                        assert(gi.spec_blocked(x, y));
                    } else {
                        assert(opp_seg_upto(others@, li, 3, x, y));
                        assert(gb.spec_blocked(x, y));
                    }
                }
                if inflate && opp_adj_upto(others@, li + 1, x, y) {
                    let ii = choose|ii: int|
                        0 <= ii < li + 1 && #[trigger] opp_head_adj(others@, ii, x, y);
                    if ii < li {
                        assert(opp_adj_upto(others@, li, x, y));
                        assert(gi.spec_blocked(x, y));
                    } else {
                        assert(opp_head_adj(others@, li, x, y));
                    }
                }
            }
            }
        }
        i = i + 1;
    }
    g
}

} // verus!
