//! The board model: positions, the four cardinal directions in their fixed
//! order, bounds checks, Manhattan distance, and an occupancy grid that
//! answers blocked-cell queries.

use vstd::prelude::*;

verus! {

/// A cell on the board, 1-indexed on both axes: valid cells satisfy
/// `1 <= x <= n` and `1 <= y <= n` for board size `n`.
#[derive(Clone, Copy, PartialEq, Eq, Structural, Debug)]
pub struct Pos {
    pub x: i32,
    pub y: i32,
}

/// The largest board size for which a cell index `(y-1)*n + (x-1)` still
/// fits in an `i32` (the floor of the square root of `i32::MAX`).
pub const MAX_BOARD: i32 = 46340;

/// Unit x-delta of direction code `d` (0 = Up, 1 = Left, 2 = Down, 3 = Right).
pub open spec fn dir_dx(d: int) -> int {
    if d == 1 {
        -1
    } else if d == 3 {
        1
    } else {
        0
    }
}

/// Unit y-delta of direction code `d` (0 = Up, 1 = Left, 2 = Down, 3 = Right).
pub open spec fn dir_dy(d: int) -> int {
    if d == 0 {
        1
    } else if d == 2 {
        -1
    } else {
        0
    }
}

/// The unit delta of direction code `d`, in the fixed order
/// Up = (0, 1), Left = (-1, 0), Down = (0, -1), Right = (1, 0).
pub fn dir_delta(d: i32) -> (r: (i32, i32))
    requires
        0 <= d < 4,
    ensures
        r.0 == dir_dx(d as int),
        r.1 == dir_dy(d as int),
{
    if d == 0 {
        (0, 1)
    } else if d == 1 {
        (-1, 0)
    } else if d == 2 {
        (0, -1)
    } else {
        (1, 0)
    }
}

/// Whether `(x, y)` lies on an `n` by `n` board.
pub open spec fn valid_cell(n: int, x: int, y: int) -> bool {
    1 <= x <= n && 1 <= y <= n
}

pub open spec fn abs_i(v: int) -> int {
    if v < 0 {
        -v
    } else {
        v
    }
}

/// Manhattan distance between `(x1, y1)` and `(x2, y2)`.
pub open spec fn manhattan(x1: int, y1: int, x2: int, y2: int) -> int {
    abs_i(x1 - x2) + abs_i(y1 - y2)
}

/// Two cells are adjacent when one cardinal step leads from one to the other.
pub open spec fn adjacent(a: (int, int), b: (int, int)) -> bool {
    ||| (b.0 == a.0 && b.1 == a.1 + 1)
    ||| (b.0 == a.0 - 1 && b.1 == a.1)
    ||| (b.0 == a.0 && b.1 == a.1 - 1)
    ||| (b.0 == a.0 + 1 && b.1 == a.1)
}

pub proof fn lemma_step_adjacent(x: int, y: int, d: int)
    requires
        0 <= d < 4,
    ensures
        adjacent((x, y), (x + dir_dx(d), y + dir_dy(d))),
{
}

/// Row-major index of a valid cell in an occupancy grid of side `n`.
pub open spec fn cell_idx(n: int, x: int, y: int) -> int {
    (y - 1) * n + (x - 1)
}

pub proof fn lemma_cell_idx_bounds(n: int, x: int, y: int)
    requires
        1 <= n <= MAX_BOARD,
        valid_cell(n, x, y),
    ensures
        0 <= cell_idx(n, x, y) < n * n,
        0 <= (y - 1) * n,
        n * n <= 0x7fff_ffff,
{
    assert((y - 1) * n + (x - 1) < n * n && 0 <= (y - 1) * n && n * n <= 46340 * 46340)
        by (nonlinear_arith)
        requires
            1 <= x <= n && 1 <= y <= n && n <= 46340,
    ;
}

pub proof fn lemma_cell_idx_injective(n: int, x1: int, y1: int, x2: int, y2: int)
    requires
        1 <= n,
        valid_cell(n, x1, y1),
        valid_cell(n, x2, y2),
        cell_idx(n, x1, y1) == cell_idx(n, x2, y2),
    ensures
        x1 == x2 && y1 == y2,
{
    assert(y1 == y2 && x1 == x2) by (nonlinear_arith)
        requires
            1 <= x1 <= n && 1 <= y1 <= n && 1 <= x2 <= n && 1 <= y2 <= n,
            (y1 - 1) * n + (x1 - 1) == (y2 - 1) * n + (x2 - 1),
    ;
}

/// A grid of side `n` with one boolean per cell, all clear.
pub fn false_grid(n: i32) -> (r: Vec<bool>)
    requires
        1 <= n <= MAX_BOARD,
    ensures
        r@.len() == n * n,
        forall|j: int| 0 <= j < r@.len() ==> !r@[j],
{
    proof {
        assert(0 <= n * n <= MAX_BOARD * MAX_BOARD) by (nonlinear_arith)
            requires
                1 <= n <= MAX_BOARD,
        ;
    }
    let len: usize = (n as usize) * (n as usize);
    let mut cells: Vec<bool> = Vec::new();
    let mut i: usize = 0;
    while i < len
        invariant
            i <= len,
            cells@.len() == i,
            forall|j: int| 0 <= j < i ==> !cells@[j],
        decreases len - i,
    {
        cells.push(false);
        i = i + 1;
    }
    cells
}

/// A grid of side `n` with one direction slot per cell, all zero.
pub fn zero_grid(n: i32) -> (r: Vec<i32>)
    requires
        1 <= n <= MAX_BOARD,
    ensures
        r@.len() == n * n,
        forall|j: int| 0 <= j < r@.len() ==> r@[j] == 0,
{
    proof {
        assert(0 <= n * n <= MAX_BOARD * MAX_BOARD) by (nonlinear_arith)
            requires
                1 <= n <= MAX_BOARD,
        ;
    }
    let len: usize = (n as usize) * (n as usize);
    let mut cells: Vec<i32> = Vec::new();
    let mut i: usize = 0;
    while i < len
        invariant
            i <= len,
            cells@.len() == i,
            forall|j: int| 0 <= j < i ==> cells@[j] == 0,
        decreases len - i,
    {
        cells.push(0);
        i = i + 1;
    }
    cells
}

/// Every adjacent cell is one cardinal step away.
pub proof fn lemma_adjacent_is_step(a: (int, int), b: (int, int))
    requires
        adjacent(a, b),
    ensures
        exists|d: int| 0 <= d < 4 && b.0 == a.0 + #[trigger] dir_dx(d) && b.1 == a.1 + dir_dy(d),
{
    if b.0 == a.0 && b.1 == a.1 + 1 {
        assert(b.0 == a.0 + dir_dx(0) && b.1 == a.1 + dir_dy(0));
    } else if b.0 == a.0 - 1 && b.1 == a.1 {
        assert(b.0 == a.0 + dir_dx(1) && b.1 == a.1 + dir_dy(1));
    } else if b.0 == a.0 && b.1 == a.1 - 1 {
        assert(b.0 == a.0 + dir_dx(2) && b.1 == a.1 + dir_dy(2));
    } else {
        assert(b.0 == a.0 + dir_dx(3) && b.1 == a.1 + dir_dy(3));
    }
}

/// Row-major index of the valid cell `(x, y)`, as carried at run time.
pub fn cell_index(n: i32, x: i32, y: i32) -> (r: usize)
    requires
        1 <= n <= MAX_BOARD,
        valid_cell(n as int, x as int, y as int),
    ensures
        r == cell_idx(n as int, x as int, y as int),
        r < n * n,
{
    proof {
        lemma_cell_idx_bounds(n as int, x as int, y as int);
    }
    (((y - 1) as usize) * (n as usize)) + ((x - 1) as usize)
}

/// The square board together with the set of cells that are impassable for
/// the current query: bounds plus occupancy.
pub struct Obstacles {
    pub n: i32,
    pub cells: Vec<bool>,
}

impl View for Obstacles {
    type V = Set<(int, int)>;

    /// The obstacle set itself: the valid cells that are impassable.
    open spec fn view(&self) -> Set<(int, int)> {
        Set::new(
            |c: (int, int)|
                valid_cell(self.n as int, c.0, c.1) && self.spec_blocked(c.0, c.1),
        )
    }
}

impl Obstacles {
    /// Well-formed: positive side length small enough for `i32` cell indices,
    /// and one occupancy entry per cell.
    pub open spec fn wf(self) -> bool {
        1 <= self.n <= MAX_BOARD && self.cells@.len() == self.n * self.n
    }

    /// Whether the (valid) cell `(x, y)` is impassable.
    pub open spec fn spec_blocked(self, x: int, y: int) -> bool {
        self.cells@[cell_idx(self.n as int, x, y)]
    }

    /// An empty board of side `n`: nothing is blocked.
    pub fn new(n: i32) -> (r: Obstacles)
        requires
            1 <= n <= MAX_BOARD,
        ensures
            r.wf(),
            r.n == n,
            forall|x: int, y: int|
                valid_cell(n as int, x, y) ==> !r.spec_blocked(x, y),
    {
        let cells = false_grid(n);
        let r = Obstacles { n, cells };
        proof {
            assert forall|x: int, y: int|
                valid_cell(n as int, x, y) implies !r.spec_blocked(x, y) by {
                lemma_cell_idx_bounds(n as int, x, y);
            }
        }
        r
    }

    /// Whether the cell `(x, y)` is impassable.
    pub fn blocked(&self, x: i32, y: i32) -> (r: bool)
        requires
            self.wf(),
            valid_cell(self.n as int, x as int, y as int),
        ensures
            r == self.spec_blocked(x as int, y as int),
    {
        proof {
            lemma_cell_idx_bounds(self.n as int, x as int, y as int);
        }
        let idx: usize = (((y - 1) as usize) * (self.n as usize)) + ((x - 1) as usize);
        self.cells[idx]
    }

    /// Mark the cell `(x, y)` impassable; every other cell keeps its state.
    pub fn block(&mut self, x: i32, y: i32)
        requires
            old(self).wf(),
            valid_cell(old(self).n as int, x as int, y as int),
        ensures
            final(self).wf(),
            final(self).n == old(self).n,
            final(self).spec_blocked(x as int, y as int),
            forall|x2: int, y2: int|
                valid_cell(old(self).n as int, x2, y2) && !(x2 == x as int && y2 == y as int)
                    ==> final(self).spec_blocked(x2, y2) == old(self).spec_blocked(x2, y2),
    {
        let ghost pre = *self;
        proof {
            lemma_cell_idx_bounds(self.n as int, x as int, y as int);
        }
        let idx: usize = (((y - 1) as usize) * (self.n as usize)) + ((x - 1) as usize);
        self.cells[idx] = true;
        proof {
            assert forall|x2: int, y2: int|
                valid_cell(self.n as int, x2, y2) && !(x2 == x as int && y2 == y as int) implies
                self.spec_blocked(x2, y2) == pre.spec_blocked(x2, y2) by {
                lemma_cell_idx_bounds(self.n as int, x2, y2);
                if cell_idx(self.n as int, x2, y2) == cell_idx(self.n as int, x as int, y as int) {
                    lemma_cell_idx_injective(self.n as int, x2, y2, x as int, y as int);
                }
            }
        }
    }
}

} // verus!
