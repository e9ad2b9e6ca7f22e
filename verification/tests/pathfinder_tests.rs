use snake::grid::Obstacles;
use snake::pathfinder::{first_step_to, is_reachable};
use snake::{greedy_snake_move_barriers, greedy_snake_step, Pos};

// Brute-force flood fill over the same occupancy grid, for comparison.
fn flood_fill(g: &Obstacles, sx: i32, sy: i32) -> Vec<bool> {
    let n = g.n as usize;
    let mut seen = vec![false; n * n];
    let idx = |x: i32, y: i32| ((y - 1) as usize) * n + ((x - 1) as usize);
    let mut stack = vec![(sx, sy)];
    seen[idx(sx, sy)] = true;
    while let Some((x, y)) = stack.pop() {
        for (dx, dy) in [(0, 1), (-1, 0), (0, -1), (1, 0)] {
            let (ax, ay) = (x + dx, y + dy);
            if ax >= 1 && ax <= g.n && ay >= 1 && ay <= g.n {
                let i = idx(ax, ay);
                if !g.cells[i] && !seen[i] {
                    seen[i] = true;
                    stack.push((ax, ay));
                }
            }
        }
    }
    seen
}

// Reachability agrees with a brute-force flood fill on every cell.
#[test]
fn test_reachable_matches_flood_fill() {
    let mut g = Obstacles::new(6);
    // a wall with one gap
    for y in 1..=5 {
        g.block(3, y);
    }
    g.block(5, 5);
    let start = Pos { x: 1, y: 1 };
    let seen = flood_fill(&g, start.x, start.y);
    for x in 1..=6 {
        for y in 1..=6 {
            let i = ((y - 1) as usize) * 6 + ((x - 1) as usize);
            assert_eq!(is_reachable(&g, start, x, y), seen[i], "cell ({}, {})", x, y);
        }
    }
}

// On an empty board with start and target in one row or column, the first
// step strictly decreases the Manhattan distance to the target.
#[test]
fn test_straight_line_first_steps() {
    let g = Obstacles::new(8);
    let cases = [
        (Pos { x: 2, y: 5 }, 6, 5, 3), // Right
        (Pos { x: 7, y: 3 }, 2, 3, 1), // Left
        (Pos { x: 5, y: 2 }, 5, 7, 0), // Up
        (Pos { x: 4, y: 6 }, 4, 2, 2), // Down
    ];
    for (start, tx, ty, want) in cases {
        let goals = vec![Pos { x: tx, y: ty }];
        assert_eq!(first_step_to(&g, start, &goals), Some(want));
    }
}

// The search never steps onto an obstacle, and reports an enclosed target
// as unreachable.
#[test]
fn test_walled_target_unreachable() {
    let mut g = Obstacles::new(8);
    g.block(1, 2);
    g.block(2, 1);
    g.block(2, 2);
    let start = Pos { x: 5, y: 5 };
    assert!(!is_reachable(&g, start, 1, 1));
    let goals = vec![Pos { x: 1, y: 1 }];
    assert_eq!(first_step_to(&g, start, &goals), None);
}

// A start cell that is itself the goal needs no move.
#[test]
fn test_start_on_goal() {
    let g = Obstacles::new(8);
    let start = Pos { x: 3, y: 3 };
    let goals = vec![Pos { x: 3, y: 3 }];
    assert_eq!(first_step_to(&g, start, &goals), None);
    assert!(is_reachable(&g, start, 3, 3));
}

// Barrier scenario: a clear column above the head leads to the fruit.
#[test]
fn test_barriers_clear_path() {
    let snake = [4, 4, 4, 3, 5, 3, 5, 2];
    let fruit = [4, 6];
    let obstacles = [8, 8, 8, 8, 8, 8, 8, 8, 8, 8, 8, 8, 8, 8, 8, 8, 8, 8, 8, 8, 8, 8, 8, 8];
    assert_eq!(greedy_snake_move_barriers(&snake, &fruit, &obstacles), 0);
}

// Barrier scenario: a fruit walled off in the corner cannot be reached.
#[test]
fn test_barriers_unreachable_fruit() {
    let snake = [4, 4, 4, 3, 5, 3, 5, 2];
    let fruit = [1, 1];
    let obstacles = [1, 2, 2, 1, 8, 8, 8, 8, 8, 8, 8, 8, 8, 8, 8, 8, 8, 8, 8, 8, 8, 8, 8, 8];
    assert_eq!(greedy_snake_move_barriers(&snake, &fruit, &obstacles), -1);
}

// Barrier scenario: malformed arrays are rejected before any search.
#[test]
fn test_barriers_malformed() {
    let snake = [4, 4, 4, 3, 5, 3, 5, 2];
    let fruit = [1, 1];
    let short_obstacles = [1, 2];
    assert_eq!(greedy_snake_move_barriers(&snake, &fruit, &short_obstacles), -1);
    let short_fruit = [1];
    let full = [8, 8, 8, 8, 8, 8, 8, 8, 8, 8, 8, 8, 8, 8, 8, 8, 8, 8, 8, 8, 8, 8, 8, 8];
    assert_eq!(greedy_snake_move_barriers(&snake, &short_fruit, &full), -1);
    let short_snake = [4, 4];
    assert_eq!(greedy_snake_move_barriers(&short_snake, &fruit, &full), -1);
}

// Multi-agent scenario: no opponents, food straight above the head.
#[test]
fn test_step_moves_to_food() {
    let r = greedy_snake_step(8, vec![4, 4, 4, 3, 5, 3, 5, 2], 0, vec![], 1, vec![4, 5], 1);
    assert_eq!(r, 0);
}

// Multi-agent scenario: a food inside an opponent's threat zone is not
// chased; the survival fallback walks greedily toward it instead.
#[test]
fn test_step_threat_zone_fallback() {
    let r = greedy_snake_step(
        8,
        vec![4, 4, 4, 3, 5, 3, 5, 2],
        1,
        vec![6, 4, 7, 4, 8, 4, 8, 5],
        1,
        vec![5, 4],
        1,
    );
    // (5,4) sits next to the opposing head at (6,4): unreachable under the
    // strict rule, but the loose fallback may enter it
    assert_eq!(r, 3);
}

// Multi-agent scenario: a board of one cell leaves no legal move.
#[test]
fn test_step_trapped() {
    let r = greedy_snake_step(1, vec![1, 1, 1, 1, 1, 1, 1, 1], 0, vec![], 0, vec![], 1);
    assert_eq!(r, -1);
}

// Multi-agent scenario: mismatched lengths are malformed.
#[test]
fn test_step_malformed() {
    assert_eq!(greedy_snake_step(8, vec![4, 4], 0, vec![], 0, vec![], 1), -1);
    assert_eq!(
        greedy_snake_step(8, vec![4, 4, 4, 3, 5, 3, 5, 2], 1, vec![6, 4], 0, vec![], 1),
        -1
    );
    assert_eq!(
        greedy_snake_step(8, vec![4, 4, 4, 3, 5, 3, 5, 2], 0, vec![], 2, vec![4, 5], 1),
        -1
    );
    assert_eq!(
        greedy_snake_step(0, vec![4, 4, 4, 3, 5, 3, 5, 2], 0, vec![], 0, vec![], 1),
        -1
    );
}

// Multi-agent scenario: without reachable food and with food elsewhere,
// ties in the fallback go to the earliest direction in the fixed order.
#[test]
fn test_step_fallback_tie_break() {
    // food on the own second segment: strictly unreachable (it is the one
    // danger cell), so the fallback chooses among Up, Left, Right
    let r = greedy_snake_step(8, vec![4, 4, 4, 3, 5, 3, 5, 2], 0, vec![], 1, vec![4, 3], 1);
    // distances to (4,3) from (4,5) is 2, from (3,4) is 2, from (5,4) is 2:
    // the earliest direction wins
    assert_eq!(r, 0);
}

// With the direct neighbours toward the goal blocked, the search still
// finds a way around and never proposes a blocked first step.
#[test]
fn test_detour_first_step() {
    let mut g = Obstacles::new(8);
    g.block(4, 5);
    g.block(5, 4);
    let start = Pos { x: 4, y: 4 };
    let goals = vec![Pos { x: 5, y: 5 }];
    let r = first_step_to(&g, start, &goals);
    // only Left (1) and Down (2) are open, and both lead around
    assert!(r == Some(1) || r == Some(2));
}

// With several foods the nearer one is chased.
#[test]
fn test_step_nearest_of_two_foods() {
    let r = greedy_snake_step(
        8,
        vec![4, 4, 4, 3, 5, 3, 5, 2],
        0,
        vec![],
        2,
        vec![1, 1, 4, 6],
        1,
    );
    assert_eq!(r, 0);
}

// A fruit on the head cell itself needs no move: the sentinel.
#[test]
fn test_barriers_fruit_on_head() {
    let snake = [4, 4, 4, 3, 5, 3, 5, 2];
    let fruit = [4, 4];
    let obstacles = [8, 8, 8, 8, 8, 8, 8, 8, 8, 8, 8, 8, 8, 8, 8, 8, 8, 8, 8, 8, 8, 8, 8, 8];
    assert_eq!(greedy_snake_move_barriers(&snake, &fruit, &obstacles), -1);
}

// A fruit on the snake's own body is unreachable: the body cells behind the
// head are obstacles, so the selector must signal -1 and never step into
// the second segment.
#[test]
fn test_barriers_fruit_on_own_body() {
    let snake = [4, 4, 4, 3, 5, 3, 5, 2];
    let fruit = [4, 3];
    let obstacles = [8, 8, 8, 8, 8, 8, 8, 8, 8, 8, 8, 8, 8, 8, 8, 8, 8, 8, 8, 8, 8, 8, 8, 8];
    assert_eq!(greedy_snake_move_barriers(&snake, &fruit, &obstacles), -1);
}

// The barrier search routes around the snake's own body.
#[test]
fn test_barriers_detours_around_body() {
    // body wall at (4,3), (5,3), (5,2); fruit right behind it
    let snake = [4, 4, 4, 3, 5, 3, 5, 2];
    let fruit = [5, 1];
    let obstacles = [8, 8, 8, 8, 8, 8, 8, 8, 8, 8, 8, 8, 8, 8, 8, 8, 8, 8, 8, 8, 8, 8, 8, 8];
    let r = greedy_snake_move_barriers(&snake, &fruit, &obstacles);
    // the direct Down neighbour (4,3) is a body cell; a legal first step exists
    assert!(r == 1 || r == 3);
    assert_ne!(r, 2);
}
