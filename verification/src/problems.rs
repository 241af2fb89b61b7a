//! Example problem spaces: a rectangular grid with walls and 4-directional
//! movement, and knight moves on a square board.  States pack a column and a
//! row into one `u64`.

use vstd::prelude::*;

verus! {

use crate::StateSpace;
use crate::CostStateSpace;
use crate::HeuristicStateSpace;
use crate::vec_has;
use crate::lemma_push_contains;

/// The packed state of the cell in column `x` and row `y`.
pub open spec fn cell_spec(x: int, y: int) -> int {
    x * 0x100000000 + y
}

/// The column encoded in state `s`.
pub open spec fn cell_x(s: u64) -> int {
    s as int / 0x100000000
}

/// The row encoded in state `s`.
pub open spec fn cell_y(s: u64) -> int {
    s as int % 0x100000000
}

/// Packs a column and a row into a state.
pub fn cell(x: u64, y: u64) -> (s: u64)
    requires
        x < 0x100000000,
        y < 0x100000000,
    ensures
        s == cell_spec(x as int, y as int),
        cell_x(s) == x as int,
        cell_y(s) == y as int,
{
    let s = x * 0x100000000 + y;
    proof {
        vstd::arithmetic::div_mod::lemma_fundamental_div_mod_converse(
            s as int,
            0x100000000,
            x as int,
            y as int,
        );
    }
    s
}

/// Every state is the packed form of its own decoded column and row.
proof fn lemma_cell_decode(s: u64)
    ensures
        s as int == cell_spec(cell_x(s), cell_y(s)),
        0 <= cell_x(s) < 0x100000000,
        0 <= cell_y(s) < 0x100000000,
{
    vstd::arithmetic::div_mod::lemma_fundamental_div_mod(s as int, 0x100000000);
}

/// The two cells are one step apart, horizontally or vertically.
pub open spec fn grid_adjacent(xa: int, ya: int, xb: int, yb: int) -> bool {
    ||| (xa == xb && (ya == yb + 1 || yb == ya + 1))
    ||| (ya == yb && (xa == xb + 1 || xb == xa + 1))
}

/// A rectangular grid of cells, some of which are walls.  Moves go one cell
/// up, down, left or right, never onto a wall or off the grid.
pub struct GridSpace {
    /// Number of columns.
    pub width: u64,
    /// Number of rows.
    pub height: u64,
    /// The packed states of the wall cells.
    pub walls: Vec<u64>,
}

impl GridSpace {
    /// The grid dimensions stay within the packed coordinate range.
    pub open spec fn wf(&self) -> bool {
        self.width <= 0x100000000 && self.height <= 0x100000000
    }

    /// `(x, y)` is a cell of the grid and not a wall.
    pub open spec fn cell_ok(&self, x: int, y: int) -> bool {
        &&& 0 <= x < self.width
        &&& 0 <= y < self.height
        &&& !self.walls@.contains((x * 0x100000000 + y) as u64)
    }
}

impl StateSpace for GridSpace {
    open spec fn edge(&self, from: u64, to: u64) -> bool {
        &&& self.wf()
        &&& self.cell_ok(cell_x(from), cell_y(from))
        &&& self.cell_ok(cell_x(to), cell_y(to))
        &&& grid_adjacent(cell_x(from), cell_y(from), cell_x(to), cell_y(to))
    }

    fn neighbours(&self, state: u64) -> (r: Vec<u64>)
        ensures
            forall|t: u64| #[trigger] r@.contains(t) <==> self.edge(state, t),
            forall|i: int, j: int| 0 <= i < j < r@.len() ==> r@[i] != r@[j],
    {
        let mut out: Vec<u64> = Vec::new();
        let x = state / 0x100000000;
        let y = state % 0x100000000;
        proof {
            lemma_cell_decode(state);
        }
        if !(self.width <= 0x100000000 && self.height <= 0x100000000 && x < self.width && y
            < self.height) {
            return out;
        }
        if vec_has(&self.walls, state) {
            return out;
        }
        if y + 1 < self.height {
            let t = cell(x, y + 1);
            if !vec_has(&self.walls, t) {
                proof {
                    lemma_push_contains(out@, t);
                    assert(self.edge(state, t));
                    assert(forall|i: int| 0 <= i < out@.len() ==> out@[i] != t);
                }
                out.push(t);
                proof {
                    assert(forall|i: int, j: int| 0 <= i < j < out@.len() ==> out@[i] != out@[j]);
                }
            }
        }
        if y > 0 {
            let t = cell(x, y - 1);
            if !vec_has(&self.walls, t) {
                proof {
                    lemma_push_contains(out@, t);
                    assert(self.edge(state, t));
                    assert(forall|i: int| 0 <= i < out@.len() ==> out@[i] != t);
                }
                out.push(t);
                proof {
                    assert(forall|i: int, j: int| 0 <= i < j < out@.len() ==> out@[i] != out@[j]);
                }
            }
        }
        if x + 1 < self.width {
            let t = cell(x + 1, y);
            if !vec_has(&self.walls, t) {
                proof {
                    lemma_push_contains(out@, t);
                    assert(self.edge(state, t));
                    assert(forall|i: int| 0 <= i < out@.len() ==> out@[i] != t);
                }
                out.push(t);
                proof {
                    assert(forall|i: int, j: int| 0 <= i < j < out@.len() ==> out@[i] != out@[j]);
                }
            }
        }
        if x > 0 {
            let t = cell(x - 1, y);
            if !vec_has(&self.walls, t) {
                proof {
                    lemma_push_contains(out@, t);
                    assert(self.edge(state, t));
                    assert(forall|i: int| 0 <= i < out@.len() ==> out@[i] != t);
                }
                out.push(t);
                proof {
                    assert(forall|i: int, j: int| 0 <= i < j < out@.len() ==> out@[i] != out@[j]);
                }
            }
        }
        proof {
            assert forall|t: u64| #[trigger] out@.contains(t) <==> self.edge(state, t) by {
                if self.edge(state, t) {
                    lemma_cell_decode(t);
                }
            }
        }
        out
    }
}

impl CostStateSpace for GridSpace {
    open spec fn cost_spec(&self, current: u64, next: u64) -> u64 {
        1
    }

    fn cost(&self, current: u64, next: u64) -> (r: u64)
        ensures
            r == self.cost_spec(current, next),
    {
        1
    }
}

/// The absolute difference of two coordinates.
pub open spec fn abs_diff(a: int, b: int) -> int {
    if a >= b {
        a - b
    } else {
        b - a
    }
}

impl HeuristicStateSpace for GridSpace {
    open spec fn heuristic_spec(&self, state: u64, goal: u64) -> u64 {
        (abs_diff(cell_x(state), cell_x(goal)) + abs_diff(cell_y(state), cell_y(goal))) as u64
    }

    fn heuristic(&self, state: u64, goal: u64) -> (r: u64)
        ensures
            r == self.heuristic_spec(state, goal),
    {
        let x = state / 0x100000000;
        let y = state % 0x100000000;
        let gx = goal / 0x100000000;
        let gy = goal % 0x100000000;
        proof {
            lemma_cell_decode(state);
            lemma_cell_decode(goal);
        }
        let dx = if x > gx {
            x - gx
        } else {
            gx - x
        };
        let dy = if y > gy {
            y - gy
        } else {
            gy - y
        };
        dx + dy
    }
}

/// The grid's Manhattan estimate is consistent toward any goal: crossing
/// one edge changes each coordinate by at most one, so the estimate drops
/// by at most the unit edge cost, and it vanishes at the goal itself.
pub proof fn lemma_grid_heuristic_consistent(g: &GridSpace, goal: u64)
    ensures
        crate::consistent_heuristic(g, goal),
{
    lemma_cell_decode(goal);
    assert forall|s: u64, t: u64| #[trigger] g.edge(s, t) implies g.heuristic_spec(s, goal)
        as int <= g.cost_spec(s, t) as int + g.heuristic_spec(t, goal) as int by {
        lemma_cell_decode(s);
        lemma_cell_decode(t);
    }
}

/// The two squares are a knight's move apart.
pub open spec fn knight_adjacent(xa: int, ya: int, xb: int, yb: int) -> bool {
    ||| (xb == xa + 1 && yb == ya + 2)
    ||| (xb == xa + 1 && ya == yb + 2)
    ||| (xa == xb + 1 && yb == ya + 2)
    ||| (xa == xb + 1 && ya == yb + 2)
    ||| (xb == xa + 2 && yb == ya + 1)
    ||| (xb == xa + 2 && ya == yb + 1)
    ||| (xa == xb + 2 && yb == ya + 1)
    ||| (xa == xb + 2 && ya == yb + 1)
}

/// A square board on which a knight moves.
pub struct KnightBoard {
    /// The number of columns and rows.
    pub size: u64,
}

impl KnightBoard {
    /// The board side stays within the packed coordinate range.
    pub open spec fn wf(&self) -> bool {
        self.size <= 0x100000000
    }

    /// `(x, y)` is a square of the board.
    pub open spec fn on_board(&self, x: int, y: int) -> bool {
        0 <= x < self.size && 0 <= y < self.size
    }
}

impl StateSpace for KnightBoard {
    open spec fn edge(&self, from: u64, to: u64) -> bool {
        &&& self.wf()
        &&& self.on_board(cell_x(from), cell_y(from))
        &&& self.on_board(cell_x(to), cell_y(to))
        &&& knight_adjacent(cell_x(from), cell_y(from), cell_x(to), cell_y(to))
    }

    fn neighbours(&self, state: u64) -> (r: Vec<u64>)
        ensures
            forall|t: u64| #[trigger] r@.contains(t) <==> self.edge(state, t),
            forall|i: int, j: int| 0 <= i < j < r@.len() ==> r@[i] != r@[j],
    {
        let mut out: Vec<u64> = Vec::new();
        let x = state / 0x100000000;
        let y = state % 0x100000000;
        proof {
            lemma_cell_decode(state);
        }
        if !(self.size <= 0x100000000 && x < self.size && y < self.size) {
            return out;
        }
        if x + 1 < self.size && y + 2 < self.size {
            let t = cell(x + 1, y + 2);
            proof {
                lemma_push_contains(out@, t);
                assert(self.edge(state, t));
                assert(forall|i: int| 0 <= i < out@.len() ==> out@[i] != t);
            }
            out.push(t);
            proof {
                assert(forall|i: int, j: int| 0 <= i < j < out@.len() ==> out@[i] != out@[j]);
            }
        }
        if x + 1 < self.size && y >= 2 {
            let t = cell(x + 1, y - 2);
            proof {
                lemma_push_contains(out@, t);
                assert(self.edge(state, t));
                assert(forall|i: int| 0 <= i < out@.len() ==> out@[i] != t);
            }
            out.push(t);
            proof {
                assert(forall|i: int, j: int| 0 <= i < j < out@.len() ==> out@[i] != out@[j]);
            }
        }
        if x >= 1 && y + 2 < self.size {
            let t = cell(x - 1, y + 2);
            proof {
                lemma_push_contains(out@, t);
                assert(self.edge(state, t));
                assert(forall|i: int| 0 <= i < out@.len() ==> out@[i] != t);
            }
            out.push(t);
            proof {
                assert(forall|i: int, j: int| 0 <= i < j < out@.len() ==> out@[i] != out@[j]);
            }
        }
        if x >= 1 && y >= 2 {
            let t = cell(x - 1, y - 2);
            proof {
                lemma_push_contains(out@, t);
                assert(self.edge(state, t));
                assert(forall|i: int| 0 <= i < out@.len() ==> out@[i] != t);
            }
            out.push(t);
            proof {
                assert(forall|i: int, j: int| 0 <= i < j < out@.len() ==> out@[i] != out@[j]);
            }
        }
        if x + 2 < self.size && y + 1 < self.size {
            let t = cell(x + 2, y + 1);
            proof {
                lemma_push_contains(out@, t);
                assert(self.edge(state, t));
                assert(forall|i: int| 0 <= i < out@.len() ==> out@[i] != t);
            }
            out.push(t);
            proof {
                assert(forall|i: int, j: int| 0 <= i < j < out@.len() ==> out@[i] != out@[j]);
            }
        }
        if x + 2 < self.size && y >= 1 {
            let t = cell(x + 2, y - 1);
            proof {
                lemma_push_contains(out@, t);
                assert(self.edge(state, t));
                assert(forall|i: int| 0 <= i < out@.len() ==> out@[i] != t);
            }
            out.push(t);
            proof {
                assert(forall|i: int, j: int| 0 <= i < j < out@.len() ==> out@[i] != out@[j]);
            }
        }
        if x >= 2 && y + 1 < self.size {
            let t = cell(x - 2, y + 1);
            proof {
                lemma_push_contains(out@, t);
                assert(self.edge(state, t));
                assert(forall|i: int| 0 <= i < out@.len() ==> out@[i] != t);
            }
            out.push(t);
            proof {
                assert(forall|i: int, j: int| 0 <= i < j < out@.len() ==> out@[i] != out@[j]);
            }
        }
        if x >= 2 && y >= 1 {
            let t = cell(x - 2, y - 1);
            proof {
                lemma_push_contains(out@, t);
                assert(self.edge(state, t));
                assert(forall|i: int| 0 <= i < out@.len() ==> out@[i] != t);
            }
            out.push(t);
            proof {
                assert(forall|i: int, j: int| 0 <= i < j < out@.len() ==> out@[i] != out@[j]);
            }
        }
        proof {
            assert forall|t: u64| #[trigger] out@.contains(t) <==> self.edge(state, t) by {
                if self.edge(state, t) {
                    lemma_cell_decode(t);
                }
            }
        }
        out
    }
}

} // verus!
