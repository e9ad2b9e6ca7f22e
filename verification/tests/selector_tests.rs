use snake::greedy_snake_move;

// Moves toward the fruit in each of the four directions.
#[test]
fn test_move_up() {
    let snake = [4, 4, 4, 3, 5, 3, 5, 2];
    let fruit = [4, 5];
    assert_eq!(greedy_snake_move(&snake, &fruit), 0);
}

#[test]
fn test_move_left() {
    let snake = [4, 4, 5, 4, 5, 5, 6, 5];
    let fruit = [3, 4];
    assert_eq!(greedy_snake_move(&snake, &fruit), 1);
}

#[test]
fn test_move_down() {
    let snake = [4, 4, 4, 5, 3, 5, 3, 6];
    let fruit = [4, 3];
    assert_eq!(greedy_snake_move(&snake, &fruit), 2);
}

#[test]
fn test_move_right() {
    let snake = [4, 4, 3, 4, 3, 3, 3, 2];
    let fruit = [5, 4];
    assert_eq!(greedy_snake_move(&snake, &fruit), 3);
}

// Malformed snapshots are rejected with the sentinel.
#[test]
fn test_invalid_snake_length() {
    let snake = [1, 1, 1, 2];
    let fruit = [2, 2];
    assert_eq!(greedy_snake_move(&snake, &fruit), -1);
}

#[test]
fn test_invalid_fruit_length() {
    let snake = [1, 1, 1, 2, 2, 2, 2, 1];
    let fruit = [2];
    assert_eq!(greedy_snake_move(&snake, &fruit), -1);
}

// The agent does not move into its own body.
#[test]
fn test_avoid_body_up() {
    let snake = [4, 4, 4, 5, 3, 5, 3, 6];
    let fruit = [4, 5];
    let result = greedy_snake_move(&snake, &fruit);
    assert_ne!(result, 0);
}

// The direction of smallest Manhattan distance wins.
#[test]
fn test_equal_manhattan_choices() {
    let snake = [4, 4, 4, 5, 3, 5, 3, 6];
    let fruit = [2, 4];
    let result = greedy_snake_move(&snake, &fruit);
    assert_eq!(result, 1);
}

// The agent reaches the fruit within a bounded number of rounds.
#[test]
fn test_round_limit() {
    let mut snake = [4, 4, 4, 3, 5, 3, 5, 2];
    let fruit = [1, 1];

    for round in 1..=200 {
        let direction = greedy_snake_move(&snake, &fruit);

        let (head_x, head_y) = (snake[0], snake[1]);
        let new_head = match direction {
            0 => (head_x, head_y + 1),
            1 => (head_x - 1, head_y),
            2 => (head_x, head_y - 1),
            3 => (head_x + 1, head_y),
            _ => panic!("Invalid direction"),
        };

        if new_head.0 < 1 || new_head.0 > 8 || new_head.1 < 1 || new_head.1 > 8 {
            panic!("Hit wall at round {}", round);
        }

        if new_head.0 == fruit[0] && new_head.1 == fruit[1] {
            return;
        }

        let mut new_snake = [0; 8];
        new_snake[0] = new_head.0;
        new_snake[1] = new_head.1;
        for i in 0..6 {
            new_snake[i + 2] = snake[i];
        }
        snake = new_snake;
    }

    panic!("Failed to eat fruit within 200 rounds");
}

// One decision is fast enough to run many times per second.
#[test]
fn test_time_limit() {
    let snake = [4, 4, 4, 3, 5, 3, 5, 2];
    let fruit = [1, 1];

    let start_time = std::time::Instant::now();
    let mut iterations = 0;

    while start_time.elapsed().as_millis() < 1000 {
        let _ = greedy_snake_move(&snake, &fruit);
        iterations += 1;
    }

    assert!(iterations > 1000, "Performance too slow: {} iterations", iterations);
}

// Identical snapshots give identical decisions.
#[test]
fn test_deterministic_selector() {
    let snake = [4, 4, 4, 3, 5, 3, 5, 2];
    let fruit = [1, 7];
    let first = greedy_snake_move(&snake, &fruit);
    for _ in 0..10 {
        assert_eq!(greedy_snake_move(&snake, &fruit), first);
    }
}

// In a corner with the second segment on one of the two free sides, the
// single remaining safe direction is taken, never a wall or the body.
#[test]
fn test_corner_single_escape() {
    let snake = [1, 1, 1, 2, 2, 2, 2, 1];
    let fruit = [8, 8];
    // Left and Down leave the board, Up enters the second segment; only
    // Right at (2,1) stays safe
    assert_eq!(greedy_snake_move(&snake, &fruit), 3);
}

// The returned direction always leads to an in-bounds cell outside the
// obstacle set.
#[test]
fn test_safety_all_fruits() {
    let snake = [1, 8, 1, 7, 2, 7, 2, 6];
    for fx in 1..=8 {
        for fy in 1..=8 {
            let fruit = [fx, fy];
            let r = greedy_snake_move(&snake, &fruit);
            assert!(r >= -1 && r < 4);
            if r != -1 {
                let (dx, dy) = [(0, 1), (-1, 0), (0, -1), (1, 0)][r as usize];
                let (nx, ny) = (snake[0] + dx, snake[1] + dy);
                assert!(nx >= 1 && nx <= 8 && ny >= 1 && ny <= 8);
                assert!(!(nx == snake[2] && ny == snake[3]));
            }
        }
    }
}
