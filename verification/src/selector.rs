//! The move selectors: one per supported scenario. Each takes a snapshot of
//! the board, returns a direction code in {0, 1, 2, 3} (Up, Left, Down,
//! Right), and returns the sentinel -1 when the input is malformed or no
//! legal move exists.

use vstd::prelude::*;
use crate::grid::{Obstacles, Pos, MAX_BOARD, dir_dx, dir_dy, dir_delta, valid_cell, manhattan};
use crate::pathfinder::{first_step_to, is_reachable, path_ok, reachable, is_goal};
use crate::danger::{danger_cells, block_pairs, in_pairs, pair_x, pair_y, danger_spec};

verus! {

/// Greatest Manhattan distance representable here; used as the initial
/// running minimum of the greedy scans.
pub open spec fn dist_infinity() -> int {
    0x7fff_ffff
}

/// The cell one step in direction `d` from the head of body `s` (x coordinate).
pub open spec fn head_next_x(s: Seq<i32>, d: int) -> int {
    s[0] + dir_dx(d)
}

/// The cell one step in direction `d` from the head of body `s` (y coordinate).
pub open spec fn head_next_y(s: Seq<i32>, d: int) -> int {
    s[1] + dir_dy(d)
}

/// Self-only danger rule on an 8 by 8 board: a step is safe when it stays on
/// the board and does not enter the segment immediately behind the head.
pub open spec fn step_safe(s: Seq<i32>, d: int) -> bool {
    valid_cell(8, head_next_x(s, d), head_next_y(s, d))
        && !(head_next_x(s, d) == s[2] && head_next_y(s, d) == s[3])
}

/// Manhattan distance from the cell one step in direction `d` to the fruit.
pub open spec fn step_dist(s: Seq<i32>, f: Seq<i32>, d: int) -> int {
    manhattan(head_next_x(s, d), head_next_y(s, d), f[0] as int, f[1] as int)
}

/// Greedy scan of the direction codes below `k` in the fixed order: the best
/// direction found so far (or -1) and its distance. A later direction
/// replaces an earlier one only with a strictly smaller distance.
pub open spec fn greedy_scan(s: Seq<i32>, f: Seq<i32>, k: int) -> (int, int)
    decreases k,
{
    if k <= 0 {
        (-1, dist_infinity())
    } else {
        let prev = greedy_scan(s, f, k - 1);
        if step_safe(s, k - 1) && step_dist(s, f, k - 1) < prev.1 {
            (k - 1, step_dist(s, f, k - 1))
        } else {
            prev
        }
    }
}

/// What the single-agent greedy selector returns: -1 on a malformed snapshot
/// or when no direction is safe, else the earliest direction of smallest
/// Manhattan distance to the fruit among the safe ones.
pub open spec fn spec_greedy_move(s: Seq<i32>, f: Seq<i32>) -> int {
    if s.len() != 8 || f.len() != 2 {
        -1
    } else {
        greedy_scan(s, f, 4).0
    }
}

/// The greedy scan result is either -1 with no safe direction below `k`, or
/// the earliest safe direction of minimal distance below `k`.
pub proof fn lemma_greedy_scan_props(s: Seq<i32>, f: Seq<i32>, k: int)
    requires
        0 <= k <= 4,
        forall|d: int| 0 <= d < 4 ==> step_dist(s, f, d) < dist_infinity(),
    ensures
        ({
            let (b, m) = greedy_scan(s, f, k);
            &&& (b == -1 <==> forall|d: int| 0 <= d < k ==> !step_safe(s, d))
            &&& (b == -1 ==> m == dist_infinity())
            &&& (b != -1 ==> 0 <= b < k && step_safe(s, b) && m == step_dist(s, f, b))
            &&& (b != -1 ==> forall|d: int| 0 <= d < b && step_safe(s, d) ==> m < step_dist(s, f, d))
            &&& (b != -1 ==> forall|d: int| b < d < k && step_safe(s, d) ==> m <= step_dist(s, f, d))
        }),
    decreases k,
{
    if k > 0 {
        lemma_greedy_scan_props(s, f, k - 1);
    }
}

/// Single-agent move selector on a fixed 8 by 8 board.
///
/// The snapshot is the agent's body, head first, as 8 integers (4 cells) and
/// the fruit cell as 2 integers. A snapshot of any other shape is malformed
/// and yields -1 before any search runs. Otherwise the selector is the
/// greedy survival policy: among the in-bounds directions that do not enter
/// the body segment behind the head, it returns the earliest one (in the
/// fixed order Up, Left, Down, Right) whose target cell has the smallest
/// Manhattan distance to the fruit, and -1 when no direction is safe.
pub fn greedy_snake_move(snake: &[i32], fruit: &[i32]) -> (r: i32)
    requires
        forall|i: int| 0 <= i < snake@.len() ==> 1 <= #[trigger] snake@[i] <= 8,
        forall|i: int| 0 <= i < fruit@.len() ==> 1 <= #[trigger] fruit@[i] <= 8,
    ensures
        r == spec_greedy_move(snake@, fruit@),
        r != -1 ==> 0 <= r < 4 && step_safe(snake@, r as int),
        snake@.len() == 8 && fruit@.len() == 2 && (forall|d: int|
            0 <= d < 4 ==> !step_safe(snake@, d)) ==> r == -1,
{
    if snake.len() != 8 || fruit.len() != 2 {
        return -1;
    }
    let head_x = snake[0];
    let head_y = snake[1];
    let fruit_x = fruit[0];
    let fruit_y = fruit[1];

    proof {
        assert forall|d: int| 0 <= d < 4 implies step_dist(snake@, fruit@, d) < dist_infinity() by {
        }
    }

    let mut best_move: i32 = -1;
    let mut min_distance: i32 = 0x7fff_ffff;
    let mut i: i32 = 0;
    while i < 4
        invariant
            0 <= i <= 4,
            snake@.len() == 8,
            fruit@.len() == 2,
            forall|j: int| 0 <= j < 8 ==> 1 <= #[trigger] snake@[j] <= 8,
            forall|j: int| 0 <= j < 2 ==> 1 <= #[trigger] fruit@[j] <= 8,
            head_x == snake@[0] && head_y == snake@[1],
            fruit_x == fruit@[0] && fruit_y == fruit@[1],
            (best_move as int, min_distance as int) == greedy_scan(snake@, fruit@, i as int),
        decreases 4 - i,
    {
        let (dx, dy) = dir_delta(i);
        let new_x = head_x + dx;
        let new_y = head_y + dy;
        let safe = 1 <= new_x && new_x <= 8 && 1 <= new_y && new_y <= 8
            && !(new_x == snake[2] && new_y == snake[3]);
        if safe {
            let ddx = if new_x >= fruit_x { new_x - fruit_x } else { fruit_x - new_x };
            let ddy = if new_y >= fruit_y { new_y - fruit_y } else { fruit_y - new_y };
            let distance = ddx + ddy;
            if distance < min_distance {
                min_distance = distance;
                best_move = i;
            }
        }
        i = i + 1;
    }
    proof {
        lemma_greedy_scan_props(snake@, fruit@, 4);
    }
    best_move
}


/// Tie-break law of the greedy policy: of two safe candidate directions at
/// equal Manhattan distance to the fruit, the later one in the fixed order
/// {Up, Left, Down, Right} is never returned.
pub proof fn lemma_greedy_tie_break(s: Seq<i32>, f: Seq<i32>, d1: int, d2: int)
    requires
        s.len() == 8,
        f.len() == 2,
        forall|i: int| 0 <= i < s.len() ==> 1 <= #[trigger] s[i] <= 8,
        forall|i: int| 0 <= i < f.len() ==> 1 <= #[trigger] f[i] <= 8,
        0 <= d1 < d2 < 4,
        step_safe(s, d1),
        step_safe(s, d2),
        step_dist(s, f, d1) == step_dist(s, f, d2),
    ensures
        spec_greedy_move(s, f) != d2,
{
    lemma_greedy_scan_props(s, f, 4);
}

/// The greedy policy returns a direction of minimal Manhattan distance to
/// the fruit among the safe ones, whenever it returns a direction at all.
pub proof fn lemma_greedy_minimal(s: Seq<i32>, f: Seq<i32>)
    requires
        s.len() == 8,
        f.len() == 2,
        forall|i: int| 0 <= i < s.len() ==> 1 <= #[trigger] s[i] <= 8,
        forall|i: int| 0 <= i < f.len() ==> 1 <= #[trigger] f[i] <= 8,
    ensures
        spec_greedy_move(s, f) != -1 ==> step_safe(s, spec_greedy_move(s, f)) && forall|d: int|
            0 <= d < 4 && step_safe(s, d) ==> step_dist(s, f, spec_greedy_move(s, f)) <= step_dist(
                s,
                f,
                d,
            ),
{
    lemma_greedy_scan_props(s, f, 4);
}

/// Trapped detection law: the greedy policy yields the blocked sentinel
/// exactly when no direction is safe, and never a direction into a wall or
/// the segment behind the head.
pub proof fn lemma_greedy_trapped(s: Seq<i32>, f: Seq<i32>)
    requires
        s.len() == 8,
        f.len() == 2,
        forall|i: int| 0 <= i < s.len() ==> 1 <= #[trigger] s[i] <= 8,
        forall|i: int| 0 <= i < f.len() ==> 1 <= #[trigger] f[i] <= 8,
    ensures
        spec_greedy_move(s, f) == -1 <==> (forall|d: int| 0 <= d < 4 ==> !step_safe(s, d)),
{
    lemma_greedy_scan_props(s, f, 4);
}

/// The obstacle rule of the barrier scenario: the snake's body segments
/// excluding the head (the self-only danger rule), and the twelve explicit
/// barrier cells.
pub open spec fn barrier_blocked(snake: Seq<i32>, obstacles: Seq<i32>, x: int, y: int) -> bool {
    ||| (x == snake[2] && y == snake[3])
    ||| (x == snake[4] && y == snake[5])
    ||| (x == snake[6] && y == snake[7])
    ||| in_pairs(obstacles, x, y)
}

/// The barrier scenario's obstacle set, as a set of cells on the 8 by 8 board.
pub open spec fn barrier_set(snake: Seq<i32>, obstacles: Seq<i32>) -> Set<(int, int)> {
    Set::new(
        |c: (int, int)| valid_cell(8, c.0, c.1) && barrier_blocked(snake, obstacles, c.0, c.1),
    )
}

/// Move selector of the barrier scenario on a fixed 8 by 8 board.
///
/// The snapshot is the snake (8 integers), the fruit cell (2 integers) and
/// twelve barrier cells (24 integers); any other shape is malformed and
/// yields -1. Otherwise the selector returns the first step of a shortest
/// walk from the head to the fruit that avoids the barriers and the snake's
/// own body cells behind the head, and -1 when the fruit cannot be reached
/// at all (also when the fruit already lies on the head, where no move is
/// needed).
pub fn greedy_snake_move_barriers(snake: &[i32], fruit: &[i32], obstacles: &[i32]) -> (r: i32)
    requires
        forall|i: int| 0 <= i < snake@.len() ==> 1 <= #[trigger] snake@[i] <= 8,
        forall|i: int| 0 <= i < fruit@.len() ==> 1 <= #[trigger] fruit@[i] <= 8,
        forall|i: int| 0 <= i < obstacles@.len() ==> 1 <= #[trigger] obstacles@[i] <= 8,
    ensures
        !(snake@.len() == 8 && fruit@.len() == 2 && obstacles@.len() == 24) ==> r == -1,
        (snake@.len() == 8 && fruit@.len() == 2 && obstacles@.len() == 24) ==> {
            &&& (r == -1 <==> ((snake@[0] == fruit@[0] && snake@[1] == fruit@[1]) || !reachable(
                8,
                barrier_set(snake@, obstacles@),
                snake@[0] as int,
                snake@[1] as int,
                fruit@[0] as int,
                fruit@[1] as int,
            )))
            &&& (r != -1 ==> 0 <= r < 4 && valid_cell(
                8,
                snake@[0] + dir_dx(r as int),
                snake@[1] + dir_dy(r as int),
            ) && !barrier_set(snake@, obstacles@).contains(
                (snake@[0] + dir_dx(r as int), snake@[1] + dir_dy(r as int)),
            ))
            &&& (r != -1 ==> exists|p: Seq<(int, int)>|
                #![trigger path_ok(8, barrier_set(snake@, obstacles@), p)]
                path_ok(8, barrier_set(snake@, obstacles@), p) && p.len() >= 2 && p.first() == (
                snake@[0] as int,
                snake@[1] as int,
                ) && p.last() == (fruit@[0] as int, fruit@[1] as int) && p[1] == (
                snake@[0] + dir_dx(r as int),
                snake@[1] + dir_dy(r as int),
                ) && (forall|q: Seq<(int, int)>|
                    #![trigger path_ok(8, barrier_set(snake@, obstacles@), q)]
                    path_ok(8, barrier_set(snake@, obstacles@), q) && q.first() == (
                    snake@[0] as int,
                    snake@[1] as int,
                    ) && q.last() == (fruit@[0] as int, fruit@[1] as int) ==> q.len() >= p.len()))
        },
{
    if snake.len() != 8 || fruit.len() != 2 || obstacles.len() != 24 {
        return -1;
    }
    let head = Pos { x: snake[0], y: snake[1] };
    let mut g = Obstacles::new(8);
    g.block(snake[2], snake[3]);
    g.block(snake[4], snake[5]);
    g.block(snake[6], snake[7]);
    block_pairs(&mut g, obstacles);
    proof {
        assert forall|c: (int, int)|
            g@.contains(c) == barrier_set(snake@, obstacles@).contains(c) by {
            if valid_cell(8, c.0, c.1) {
                assert(g.spec_blocked(c.0, c.1) <==> barrier_blocked(snake@, obstacles@, c.0, c.1));
            }
        }
        assert(g@ =~= barrier_set(snake@, obstacles@));
    }
    if !is_reachable(&g, head, fruit[0], fruit[1]) {
        return -1;
    }
    let mut goals: Vec<Pos> = Vec::new();
    goals.push(Pos { x: fruit[0], y: fruit[1] });
    let r = first_step_to(&g, head, &goals);
    proof {
        assert(goals@[0] == Pos { x: fruit[0], y: fruit[1] });
    }
    match r {
        Option::Some(d) => {
            proof {
                let blk = g@;
                let p = choose|p: Seq<(int, int)>|
                    #![trigger path_ok(8, blk, p)]
                    path_ok(8, blk, p) && p.len() >= 2 && p.first() == (
                    head.x as int,
                    head.y as int,
                    ) && is_goal(goals@, p.last().0, p.last().1) && p[1] == (
                    head.x + dir_dx(d as int),
                    head.y + dir_dy(d as int),
                    ) && (forall|q: Seq<(int, int)>|
                        #![trigger path_ok(8, blk, q)]
                        path_ok(8, blk, q) && q.first() == (head.x as int, head.y as int)
                            && is_goal(goals@, q.last().0, q.last().1) ==> q.len() >= p.len());
                let j = choose|j: int|
                    0 <= j < goals@.len() && #[trigger] goals@[j].x == p.last().0 && goals@[j].y
                        == p.last().1;
                assert(p.last() == (fruit@[0] as int, fruit@[1] as int));
                assert(!is_goal(goals@, head.x as int, head.y as int));
                assert(!(goals@[0].x == head.x as int && goals@[0].y == head.y as int));
                // any walk ending on the fruit ends on the one goal
                assert forall|q: Seq<(int, int)>|
                    #![trigger path_ok(8, blk, q)]
                    path_ok(8, blk, q) && q.first() == (head.x as int, head.y as int) && q.last()
                        == (fruit@[0] as int, fruit@[1] as int) implies q.len() >= p.len() by {
                    assert(goals@[0].x == q.last().0 && goals@[0].y == q.last().1);
                    assert(is_goal(goals@, q.last().0, q.last().1));
                }
            }
            d
        },
        Option::None => {
            proof {
                if !is_goal(goals@, head.x as int, head.y as int) {
                    // the fruit was reachable, so the search cannot have failed
                    let blk = g@;
                    let p = choose|p: Seq<(int, int)>|
                        #![trigger path_ok(8, blk, p)]
                        path_ok(8, blk, p) && p.first() == (head.x as int, head.y as int)
                            && p.last() == (fruit@[0] as int, fruit@[1] as int);
                    assert(is_goal(goals@, p.last().0, p.last().1));
                    assert(crate::pathfinder::reaches_some_goal(
                        8,
                        blk,
                        goals@,
                        head.x as int,
                        head.y as int,
                    ));
                    assert(false);
                }
                assert(goals@[0].x == head.x && goals@[0].y == head.y);
            }
            -1
        },
    }
}


/// The multi-agent danger set as a set of cells on the `n` by `n` board.
pub open spec fn t3_set(n: int, snake: Seq<i32>, others: Seq<i32>, inflate: bool) -> Set<
    (int, int),
> {
    Set::new(
        |c: (int, int)| valid_cell(n, c.0, c.1) && danger_spec(snake, others, inflate, c.0, c.1),
    )
}

/// Well-formed multi-agent snapshot: a positive board, an own body of 4
/// segments, and flat arrays whose lengths match the declared counts.
pub open spec fn step_input_ok(
    n: i32,
    snake: Seq<i32>,
    snake_num: i32,
    others: Seq<i32>,
    food_num: i32,
    foods: Seq<i32>,
) -> bool {
    &&& n >= 1
    &&& snake.len() == 8
    &&& snake_num >= 0
    &&& others.len() == 8 * snake_num
    &&& food_num >= 0
    &&& foods.len() == 2 * food_num
}

/// Manhattan distance from `(x, y)` to the nearest of the first `k` food
/// cells; the large sentinel when there is none.
pub open spec fn nearest_food_dist(foods: Seq<i32>, k: int, x: int, y: int) -> int
    decreases k,
{
    if k <= 0 {
        dist_infinity()
    } else {
        let d = manhattan(pair_x(foods, k - 1) as int, pair_y(foods, k - 1) as int, x, y);
        let rest = nearest_food_dist(foods, k - 1, x, y);
        if d < rest {
            d
        } else {
            rest
        }
    }
}

/// A survival candidate: one step in direction `d` stays on the board and
/// outside the loose (fallback) danger set.
pub open spec fn t3_safe(n: int, snake: Seq<i32>, others: Seq<i32>, d: int) -> bool {
    valid_cell(n, snake[0] + dir_dx(d), snake[1] + dir_dy(d)) && !danger_spec(
        snake,
        others,
        false,
        snake[0] + dir_dx(d),
        snake[1] + dir_dy(d),
    )
}

/// Survival scan of the direction codes below `k` in the fixed order: the
/// best candidate so far (or -1) and its distance to the nearest food. A
/// later candidate replaces an earlier one only with a strictly smaller
/// distance; without food every distance is the same sentinel, and the
/// earliest safe direction wins.
pub open spec fn t3_scan(n: int, snake: Seq<i32>, others: Seq<i32>, foods: Seq<i32>, k: int) -> (
    int,
    int,
)
    decreases k,
{
    if k <= 0 {
        (-1, dist_infinity() + 1)
    } else {
        let prev = t3_scan(n, snake, others, foods, k - 1);
        let d = nearest_food_dist(
            foods,
            foods.len() as int / 2,
            snake[0] + dir_dx(k - 1),
            snake[1] + dir_dy(k - 1),
        );
        if t3_safe(n, snake, others, k - 1) && d < prev.1 {
            (k - 1, d)
        } else {
            prev
        }
    }
}

/// Every distance to a nearest food is at most the sentinel.
pub proof fn lemma_nearest_food_dist_range(foods: Seq<i32>, k: int, x: int, y: int)
    ensures
        0 <= nearest_food_dist(foods, k, x, y) <= dist_infinity(),
    decreases k,
{
    if k > 0 {
        lemma_nearest_food_dist_range(foods, k - 1, x, y);
    }
}

/// The survival scan result is either -1 with no safe direction below `k`,
/// or the earliest safe direction of minimal distance to the nearest food.
pub proof fn lemma_t3_scan_props(n: int, snake: Seq<i32>, others: Seq<i32>, foods: Seq<i32>, k: int)
    requires
        0 <= k <= 4,
    ensures
        ({
            let (b, m) = t3_scan(n, snake, others, foods, k);
            &&& (b == -1 <==> forall|d: int| 0 <= d < k ==> !t3_safe(n, snake, others, d))
            &&& (b == -1 ==> m == dist_infinity() + 1)
            &&& (b != -1 ==> 0 <= b < k && t3_safe(n, snake, others, b) && m == nearest_food_dist(
                foods,
                foods.len() as int / 2,
                snake[0] + dir_dx(b),
                snake[1] + dir_dy(b),
            ))
            &&& (b != -1 ==> forall|d: int|
                0 <= d < b && t3_safe(n, snake, others, d) ==> m < nearest_food_dist(
                    foods,
                    foods.len() as int / 2,
                    snake[0] + dir_dx(d),
                    snake[1] + dir_dy(d),
                ))
            &&& (b != -1 ==> forall|d: int|
                b < d < k && t3_safe(n, snake, others, d) ==> m <= nearest_food_dist(
                    foods,
                    foods.len() as int / 2,
                    snake[0] + dir_dx(d),
                    snake[1] + dir_dy(d),
                ))
        }),
    decreases k,
{
    if k > 0 {
        lemma_t3_scan_props(n, snake, others, foods, k - 1);
        lemma_nearest_food_dist_range(
            foods,
            foods.len() as int / 2,
            snake[0] + dir_dx(k - 1),
            snake[1] + dir_dy(k - 1),
        );
    }
}

/// Some food cell can be reached from `(hx, hy)` under the obstacle set `blk`.
pub open spec fn food_reachable(
    n: int,
    blk: Set<(int, int)>,
    foods: Seq<i32>,
    hx: int,
    hy: int,
) -> bool {
    exists|p: Seq<(int, int)>|
        #![trigger path_ok(n, blk, p)]
        path_ok(n, blk, p) && p.first() == (hx, hy) && in_pairs(foods, p.last().0, p.last().1)
}

/// Move selector of the multi-agent scenario on an `n` by `n` board.
///
/// The snapshot holds the agent's own body (8 integers), `snake_num`
/// opponents of 4 segments each and `food_num` food cells, all as flat
/// coordinate arrays; a snapshot whose lengths do not match those counts is
/// malformed and yields -1 before any search runs. Otherwise the selector
/// follows the shortest walk to a reachable food under the strict danger
/// set (opponents' first three segments, their heads' threat zones, the
/// cell behind the own head); when no food can be reached it falls back to
/// the greedy survival policy under the loose danger set (no threat zones),
/// and when even that leaves no candidate the agent is trapped: -1. The
/// round counter is informational only and does not enter the decision.
#[verifier::loop_isolation(false)]
#[verifier::rlimit(100)]
pub fn greedy_snake_step(
    n: i32,
    snake: Vec<i32>,
    snake_num: i32,
    other_snakes: Vec<i32>,
    food_num: i32,
    foods: Vec<i32>,
    round: i32,
) -> (r: i32)
    requires
        n <= MAX_BOARD,
        forall|i: int| 0 <= i < snake@.len() ==> 1 <= #[trigger] snake@[i] <= n,
        forall|i: int| 0 <= i < other_snakes@.len() ==> 1 <= #[trigger] other_snakes@[i] <= n,
        forall|i: int| 0 <= i < foods@.len() ==> 1 <= #[trigger] foods@[i] <= n,
    ensures
        !step_input_ok(n, snake@, snake_num, other_snakes@, food_num, foods@) ==> r == -1,
        step_input_ok(n, snake@, snake_num, other_snakes@, food_num, foods@) ==> {
            let hx = snake@[0] as int;
            let hy = snake@[1] as int;
            let strict = t3_set(n as int, snake@, other_snakes@, true);
            &&& (r != -1 ==> 0 <= r < 4 && valid_cell(
                n as int,
                hx + dir_dx(r as int),
                hy + dir_dy(r as int),
            ) && !danger_spec(
                snake@,
                other_snakes@,
                false,
                hx + dir_dx(r as int),
                hy + dir_dy(r as int),
            ))
            &&& ({
                ||| (!in_pairs(foods@, hx, hy) && 0 <= r < 4 && exists|p: Seq<(int, int)>|
                    #![trigger path_ok(n as int, strict, p)]
                    path_ok(n as int, strict, p) && p.len() >= 2 && p.first() == (hx, hy)
                        && in_pairs(foods@, p.last().0, p.last().1) && p[1] == (
                    hx + dir_dx(r as int),
                    hy + dir_dy(r as int),
                    ) && (forall|q: Seq<(int, int)>|
                        #![trigger path_ok(n as int, strict, q)]
                        path_ok(n as int, strict, q) && q.first() == (hx, hy) && in_pairs(
                            foods@,
                            q.last().0,
                            q.last().1,
                        ) ==> q.len() >= p.len()))
                ||| ((in_pairs(foods@, hx, hy) || !food_reachable(
                    n as int,
                    strict,
                    foods@,
                    hx,
                    hy,
                )) && r == t3_scan(n as int, snake@, other_snakes@, foods@, 4).0)
            })
        },
        step_input_ok(n, snake@, snake_num, other_snakes@, food_num, foods@) && (forall|d: int|
            0 <= d < 4 ==> !t3_safe(n as int, snake@, other_snakes@, d)) ==> r == -1,
{
    let _ = round;
    if n < 1 || snake.len() != 8 || snake_num < 0 || other_snakes.len() % 8 != 0
        || other_snakes.len() / 8 != snake_num as usize || food_num < 0 || foods.len() % 2 != 0
        || foods.len() / 2 != food_num as usize {
        return -1;
    }
    let ghost ni = n as int;
    let head = Pos { x: snake[0], y: snake[1] };
    let strict = danger_cells(n, &snake, &other_snakes, true);
    proof {
        assert forall|c: (int, int)|
            strict@.contains(c) == t3_set(ni, snake@, other_snakes@, true).contains(c) by {
            if valid_cell(ni, c.0, c.1) {
                assert(strict.spec_blocked(c.0, c.1) <==> danger_spec(
                    snake@,
                    other_snakes@,
                    true,
                    c.0,
                    c.1,
                ));
            }
        }
        assert(strict@ =~= t3_set(ni, snake@, other_snakes@, true));
    }
    // collect the food cells as goal positions
    let mut goals: Vec<Pos> = Vec::new();
    let half: usize = foods.len() / 2;
    let mut m: usize = 0;
    while m < half
        invariant
            m <= half,
            goals@.len() == m,
            forall|t: int|
                0 <= t < m ==> #[trigger] goals@[t] == (Pos {
                    x: pair_x(foods@, t),
                    y: pair_y(foods@, t),
                }),
        decreases half - m,
    {
        goals.push(Pos { x: foods[2 * m], y: foods[2 * m + 1] });
        proof {
            assert(goals@[m as int] == (Pos {
                x: pair_x(foods@, m as int),
                y: pair_y(foods@, m as int),
            }));
        }
        m = m + 1;
    }
    proof {
        assert(goals@.len() == foods@.len() as int / 2);
        // a goal cell and a food cell are the same thing
        assert forall|x: int, y: int|
            is_goal(goals@, x, y) == in_pairs(foods@, x, y) by {
            if is_goal(goals@, x, y) {
                let j = choose|j: int|
                    0 <= j < goals@.len() && #[trigger] goals@[j].x == x && goals@[j].y == y;
                assert(goals@[j] == (Pos { x: pair_x(foods@, j), y: pair_y(foods@, j) }));
                assert(pair_x(foods@, j) == x && pair_y(foods@, j) == y);
                assert(in_pairs(foods@, x, y));
            }
            if in_pairs(foods@, x, y) {
                let j = choose|j: int|
                    0 <= j < foods@.len() as int / 2 && #[trigger] pair_x(foods@, j) == x && pair_y(
                        foods@,
                        j,
                    ) == y;
                assert(goals@[j] == (Pos { x: pair_x(foods@, j), y: pair_y(foods@, j) }));
                assert(goals@[j].x == x && goals@[j].y == y);
                assert(is_goal(goals@, x, y));
            }
        }
    }
    let step = first_step_to(&strict, head, &goals);
    match step {
        Option::Some(d) => {
            proof {
                let blk = strict@;
                let p = choose|p: Seq<(int, int)>|
                    #![trigger path_ok(ni, blk, p)]
                    path_ok(ni, blk, p) && p.len() >= 2 && p.first() == (
                    head.x as int,
                    head.y as int,
                    ) && is_goal(goals@, p.last().0, p.last().1) && p[1] == (
                    head.x + dir_dx(d as int),
                    head.y + dir_dy(d as int),
                    ) && (forall|q: Seq<(int, int)>|
                        #![trigger path_ok(ni, blk, q)]
                        path_ok(ni, blk, q) && q.first() == (head.x as int, head.y as int)
                            && is_goal(goals@, q.last().0, q.last().1) ==> q.len() >= p.len());
                assert(in_pairs(foods@, p.last().0, p.last().1));
                // any walk ending on a food ends on a goal
                assert forall|q: Seq<(int, int)>|
                    #![trigger path_ok(ni, blk, q)]
                    path_ok(ni, blk, q) && q.first() == (head.x as int, head.y as int) && in_pairs(
                        foods@,
                        q.last().0,
                        q.last().1,
                    ) implies q.len() >= p.len() by {
                    assert(is_goal(goals@, q.last().0, q.last().1));
                }
                // a step outside the strict set is outside the loose set too
                assert(!danger_spec(
                    snake@,
                    other_snakes@,
                    true,
                    head.x + dir_dx(d as int),
                    head.y + dir_dy(d as int),
                ));
                assert(t3_safe(ni, snake@, other_snakes@, d as int));
            }
            d
        },
        Option::None => {
            // no reachable food: survival fallback under the loose danger set
            proof {
                if !is_goal(goals@, head.x as int, head.y as int) {
                    if food_reachable(ni, strict@, foods@, head.x as int, head.y as int) {
                        let blk = strict@;
                        let p = choose|p: Seq<(int, int)>|
                            #![trigger path_ok(ni, blk, p)]
                            path_ok(ni, blk, p) && p.first() == (head.x as int, head.y as int)
                                && in_pairs(foods@, p.last().0, p.last().1);
                        assert(is_goal(goals@, p.last().0, p.last().1));
                        assert(crate::pathfinder::reaches_some_goal(
                            ni,
                            blk,
                            goals@,
                            head.x as int,
                            head.y as int,
                        ));
                        assert(false);
                    }
                }
            }
            let loose = danger_cells(n, &snake, &other_snakes, false);
            let mut best: i32 = -1;
            let mut best_dist: i32 = 0x7fff_ffff;
            let mut dc: i32 = 0;
            while dc < 4
                invariant
                    0 <= dc <= 4,
                    loose.wf(),
                    loose.n == n,
                    forall|x: int, y: int|
                        valid_cell(ni, x, y) ==> (loose.spec_blocked(x, y) <==> danger_spec(
                            snake@,
                            other_snakes@,
                            false,
                            x,
                            y,
                        )),
                    ({
                        let sc = t3_scan(ni, snake@, other_snakes@, foods@, dc as int);
                        &&& sc.0 == best
                        &&& (best != -1 ==> sc.1 == best_dist)
                        &&& (best == -1 ==> sc.1 == dist_infinity() + 1)
                    }),
                decreases 4 - dc,
            {
                let (ddx, ddy) = dir_delta(dc);
                let nx = head.x + ddx;
                let ny = head.y + ddy;
                let mut safe = 1 <= nx && nx <= n && 1 <= ny && ny <= n;
                if safe {
                    if loose.blocked(nx, ny) {
                        safe = false;
                    }
                }
                proof {
                    assert(safe == t3_safe(ni, snake@, other_snakes@, dc as int));
                }
                if safe {
                    // distance to the nearest food from the candidate cell
                    let mut dist: i32 = 0x7fff_ffff;
                    let mut t: usize = 0;
                    while t < half
                        invariant
                            t <= half,
                            half == foods@.len() / 2,
                            1 <= nx <= n <= MAX_BOARD,
                            1 <= ny <= n,
                            forall|i: int| 0 <= i < foods@.len() ==> 1 <= #[trigger] foods@[i] <= n,
                            dist == nearest_food_dist(foods@, t as int, nx as int, ny as int),
                        decreases half - t,
                    {
                        let fx = foods[2 * t];
                        let fy = foods[2 * t + 1];
                        let ddx2 = if fx >= nx { fx - nx } else { nx - fx };
                        let ddy2 = if fy >= ny { fy - ny } else { ny - fy };
                        let di = ddx2 + ddy2;
                        proof {
                            assert(pair_x(foods@, t as int) == fx && pair_y(foods@, t as int)
                                == fy);
                        }
                        if di < dist {
                            dist = di;
                        }
                        t = t + 1;
                    }
                    proof {
                        lemma_nearest_food_dist_range(foods@, half as int, nx as int, ny as int);
                    }
                    if best == -1 || dist < best_dist {
                        best = dc;
                        best_dist = dist;
                    }
                }
                dc = dc + 1;
            }
            proof {
                lemma_t3_scan_props(ni, snake@, other_snakes@, foods@, 4);
            }
            best
        },
    }
}

} // verus!
