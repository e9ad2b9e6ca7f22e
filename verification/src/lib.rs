//! Move decision logic for a snake agent on a bounded square grid.
//!
//! Each public selector is called once per game tick with a snapshot of the
//! board and returns a direction code (0 = Up, 1 = Left, 2 = Down, 3 = Right)
//! or the sentinel -1, which means "no legal move or invalid input".

pub mod danger;
pub mod grid;
pub mod pathfinder;
pub mod selector;

pub use grid::Pos;
pub use selector::greedy_snake_move;
pub use selector::greedy_snake_move_barriers;
pub use selector::greedy_snake_step;
