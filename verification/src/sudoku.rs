//! The 9×9 Sudoku type and its reduction to a colored graph.
//!
//! The graph has 90 nodes: one per cell (index `9*y + x`) and nine palette
//! anchors (index `80 + v` carrying color `v`).  Its edges connect exactly
//! the pairs of cells that Sudoku forbids from sharing a value — same row,
//! same column or same 3×3 box — plus, for every given cell, the eight
//! anchors of the *other* colors, which pin the given to its stated value.
//!
//! The edge order is part of the wire contract, so the whole edge sequence
//! is pinned: [`graph_of`] returns exactly [`graph_edges`], and the lemmas
//! [`lemma_graph_edges_len`] and [`lemma_graph_edges_members`] characterize
//! that sequence.

use vstd::prelude::*;

use crate::graph::{Edge, Graph};

verus! {

/// The row of a node index below 81.
pub open spec fn row_of(a: int) -> int {
    a / 9
}

/// The column of a node index below 81.
pub open spec fn col_of(a: int) -> int {
    a % 9
}

/// Both cell indices lie in the same 3×3 box.
pub open spec fn same_box(a: int, b: int) -> bool {
    row_of(a) / 3 == row_of(b) / 3 && col_of(a) / 3 == col_of(b) / 3
}

/// An ordered pair of distinct cells that Sudoku forbids from sharing a
/// value: same row, same column, or same box.
pub open spec fn cell_pair(a: int, b: int) -> bool {
    0 <= a < b < 81 && (row_of(a) == row_of(b) || col_of(a) == col_of(b) || same_box(a, b))
}

/// A 9×9 Sudoku: a grid of colors (0 empty, 1–9 filled) and the cells fixed
/// by the puzzle statement.
#[derive(Debug)]
pub struct Sudoku {
    /// Nine rows of nine colors; `grid[y][x]` is the cell in column `x`,
    /// row `y`.
    pub grid: Vec<Vec<u8>>,
    /// The `(x, y)` coordinates of the given cells.
    pub given: Vec<(usize, usize)>,
}

impl Sudoku {
    /// The color at column `x`, row `y`.
    pub open spec fn cell(&self, x: int, y: int) -> u8 {
        self.grid@[y]@[x]
    }

    /// The grid is 9×9 with colors in 0..=9.
    pub open spec fn grid_wf(&self) -> bool {
        &&& self.grid@.len() == 9
        &&& forall|y: int| 0 <= y < 9 ==> (#[trigger] self.grid@[y])@.len() == 9
        &&& forall|y: int, x: int| 0 <= y < 9 && 0 <= x < 9 ==> #[trigger] self.grid@[y]@[x] <= 9
    }

    /// Whether the cell at column `x`, row `y` is given.
    pub open spec fn is_given(&self, x: int, y: int) -> bool {
        exists|k: int|
            0 <= k < self.given@.len() && #[trigger] self.given@[k] == (x as usize, y as usize)
    }

    /// Every given coordinate is on the grid and its cell holds a true
    /// color, never empty; the list never outgrows the board.
    pub open spec fn given_wf(&self) -> bool {
        self.given@.len() <= 81 && forall|k: int|
            0 <= k < self.given@.len() ==> {
                &&& (#[trigger] self.given@[k]).0 < 9
                &&& self.given@[k].1 < 9
                &&& 1 <= self.cell(self.given@[k].0 as int, self.given@[k].1 as int) <= 9
            }
    }

    /// A well-formed puzzle.
    pub open spec fn wf(&self) -> bool {
        self.grid_wf() && self.given_wf()
    }

    /// An anchor edge pair: a given cell against a palette anchor of a color
    /// other than its own.
    pub open spec fn anchor_pair(&self, a: int, b: int) -> bool {
        &&& 0 <= a < 81
        &&& 81 <= b < 90
        &&& self.is_given(col_of(a), row_of(a))
        &&& b - 80 != self.cell(col_of(a), row_of(a))
    }

    /// The edges of this puzzle's constraint graph, as a set.
    pub open spec fn constraint_edge(&self, e: Edge) -> bool {
        cell_pair(e.0 as int, e.1 as int) || self.anchor_pair(e.0 as int, e.1 as int)
    }
}

impl Sudoku {
    /// Checks a candidate puzzle for well-formedness: a 9×9 grid of colors
    /// in 0..=9, every given on the grid and filled with a true color.
    #[verifier::loop_isolation(false)]
    pub fn check_wf(&self) -> (r: bool)
        ensures
            r == self.wf(),
    {
        if self.grid.len() != 9 {
            return false;
        }
        let mut y: usize = 0;
        while y < 9
            invariant
                y <= 9,
                self.grid@.len() == 9,
                forall|y2: int| 0 <= y2 < y ==> (#[trigger] self.grid@[y2])@.len() == 9,
                forall|y2: int, x2: int|
                    0 <= y2 < y && 0 <= x2 < 9 ==> #[trigger] self.grid@[y2]@[x2] <= 9,
            decreases 9 - y,
        {
            if self.grid[y].len() != 9 {
                return false;
            }
            let mut x: usize = 0;
            while x < 9
                invariant
                    x <= 9,
                    self.grid@[y as int]@.len() == 9,
                    forall|x2: int| 0 <= x2 < x ==> #[trigger] self.grid@[y as int]@[x2] <= 9,
                decreases 9 - x,
            {
                if self.grid[y][x] > 9 {
                    return false;
                }
                x += 1;
            }
            y += 1;
        }
        let gn = self.given.len();
        if gn > 81 {
            return false;
        }
        let mut k: usize = 0;
        while k < gn
            invariant
                k <= gn,
                gn == self.given@.len(),
                gn <= 81,
                self.grid_wf(),
                forall|k2: int|
                    0 <= k2 < k ==> {
                        &&& (#[trigger] self.given@[k2]).0 < 9
                        &&& self.given@[k2].1 < 9
                        &&& 1 <= self.cell(self.given@[k2].0 as int, self.given@[k2].1 as int)
                            <= 9
                    },
            decreases gn - k,
        {
            let cell = self.given[k];
            if cell.0 >= 9 || cell.1 >= 9 {
                return false;
            }
            let v = self.grid[cell.1][cell.0];
            if v < 1 || v > 9 {
                return false;
            }
            k += 1;
        }
        true
    }

    /// Builds a puzzle from a grid and a list of given coordinates,
    /// validating well-formedness.
    pub fn new(grid: Vec<Vec<u8>>, given: Vec<(usize, usize)>) -> (r: Option<Sudoku>)
        ensures
            ({
                let s0 = (Sudoku { grid, given });
                if s0.wf() {
                    r == Some(s0)
                } else {
                    r is None
                }
            }),
    {
        let s = Sudoku { grid, given };
        if s.check_wf() {
            Some(s)
        } else {
            None
        }
    }

    /// Whether the cell at column `x`, row `y` is one of the givens.
    #[verifier::loop_isolation(false)]
    pub fn given_at(&self, x: usize, y: usize) -> (r: bool)
        ensures
            r == self.is_given(x as int, y as int),
    {
        let gn = self.given.len();
        let mut k: usize = 0;
        while k < gn
            invariant
                k <= gn,
                gn == self.given@.len(),
                forall|k2: int| 0 <= k2 < k ==> #[trigger] self.given@[k2] != (x, y),
            decreases gn - k,
        {
            let cell = self.given[k];
            if cell.0 == x && cell.1 == y {
                proof {
                    assert(self.given@[k as int] == (x, y));
                }
                return true;
            }
            proof {
                assert(self.given@[k as int] == (cell.0, cell.1));
            }
            k += 1;
        }
        false
    }

    /// Writes color `v` into the cell at column `x`, row `y`, unless the
    /// cell is given; the editor's single-keystroke edit.
    pub fn set_cell(&mut self, x: usize, y: usize, v: u8) -> (changed: bool)
        requires
            old(self).wf(),
            x < 9,
            y < 9,
            v <= 9,
        ensures
            final(self).wf(),
            final(self).given@ == old(self).given@,
            changed == !old(self).is_given(x as int, y as int),
            final(self).grid@.len() == 9,
            forall|x2: int, y2: int|
                0 <= x2 < 9 && 0 <= y2 < 9 ==> #[trigger] final(self).cell(x2, y2) == (if changed
                    && x2 == x && y2 == y {
                    v
                } else {
                    old(self).cell(x2, y2)
                }),
    {
        if self.given_at(x, y) {
            return false;
        }
        let row = &mut self.grid[y];
        row[x] = v;
        proof {
            assert forall|k: int|
                0 <= k < self.given@.len() implies {
                &&& (#[trigger] self.given@[k]).0 < 9
                &&& self.given@[k].1 < 9
                &&& 1 <= self.cell(self.given@[k].0 as int, self.given@[k].1 as int) <= 9
            } by {
                assert(self.given@[k] != (x, y));
            }
        }
        true
    }
}

/// A raw grid that can become a puzzle: nine rows of nine colors in 0..=9.
pub open spec fn grid_ok(grid: Seq<Vec<u8>>) -> bool {
    &&& grid.len() == 9
    &&& forall|y: int| 0 <= y < 9 ==> (#[trigger] grid[y])@.len() == 9
    &&& forall|y: int, x: int| 0 <= y < 9 && 0 <= x < 9 ==> #[trigger] grid[y]@[x] <= 9
}

/// The coordinates of the non-empty cells below cell index `c`, in
/// row-major order.
pub open spec fn nonzero_cells(grid: Seq<Vec<u8>>, c: int) -> Seq<(usize, usize)>
    decreases c,
{
    if c <= 0 {
        Seq::empty()
    } else {
        nonzero_cells(grid, c - 1) + (if grid[row_of(c - 1)]@[col_of(c - 1)] != 0 {
            seq![(col_of(c - 1) as usize, row_of(c - 1) as usize)]
        } else {
            Seq::empty()
        })
    }
}

/// Every entry of `nonzero_cells` is a valid, non-empty cell, and there
/// are at most as many entries as cells.
proof fn lemma_nonzero_cells_wf(grid: Seq<Vec<u8>>, c: int)
    requires
        grid_ok(grid),
        0 <= c <= 81,
    ensures
        nonzero_cells(grid, c).len() <= c,
        forall|k: int|
            0 <= k < nonzero_cells(grid, c).len() ==> {
                &&& (#[trigger] nonzero_cells(grid, c)[k]).0 < 9
                &&& nonzero_cells(grid, c)[k].1 < 9
                &&& grid[nonzero_cells(grid, c)[k].1 as int]@[nonzero_cells(grid, c)[k].0 as int]
                    != 0
            },
    decreases c,
{
    if c > 0 {
        lemma_nonzero_cells_wf(grid, c - 1);
        let prev = nonzero_cells(grid, c - 1);
        assert forall|k: int|
            0 <= k < nonzero_cells(grid, c).len() implies {
            &&& (#[trigger] nonzero_cells(grid, c)[k]).0 < 9
            &&& nonzero_cells(grid, c)[k].1 < 9
            &&& grid[nonzero_cells(grid, c)[k].1 as int]@[nonzero_cells(grid, c)[k].0 as int] != 0
        } by {
            if k < prev.len() {
                assert(nonzero_cells(grid, c)[k] == prev[k]);
            } else {
                assert(grid[row_of(c - 1)]@[col_of(c - 1)] != 0);
                assert(nonzero_cells(grid, c)[k] == ((col_of(c - 1)) as usize, (row_of(
                    c - 1,
                )) as usize));
            }
        }
    }
}

/// Membership in the non-empty cell list: exactly the coordinates of cells
/// below `c` whose color is not zero.
pub proof fn lemma_nonzero_cells_contains(grid: Seq<Vec<u8>>, c: int, p: (usize, usize))
    requires
        0 <= c <= 81,
    ensures
        nonzero_cells(grid, c).contains(p) <==> (p.0 < 9 && p.1 < 9 && 9 * p.1 + p.0 < c
            && grid[p.1 as int]@[p.0 as int] != 0),
    decreases c,
{
    if c > 0 {
        lemma_nonzero_cells_contains(grid, c - 1, p);
        let y = row_of(c - 1);
        let x = col_of(c - 1);
        assert(9 * y + x == c - 1);
        let tail: Seq<(usize, usize)> = if grid[y]@[x] != 0 {
            seq![(x as usize, y as usize)]
        } else {
            Seq::empty()
        };
        lemma_concat_contains(nonzero_cells(grid, c - 1), tail, p);
        lemma_singleton_contains((x as usize, y as usize), p);
    }
}

/// Law: a puzzle built by [`Sudoku::from_grid`] marks exactly the
/// non-empty cells as given.
pub proof fn lemma_from_grid_givens(s: &Sudoku, grid: Seq<Vec<u8>>, x: int, y: int)
    requires
        s.given@ == nonzero_cells(grid, 81),
        0 <= x < 9,
        0 <= y < 9,
    ensures
        s.is_given(x, y) <==> grid[y]@[x] != 0,
{
    let p = (x as usize, y as usize);
    lemma_nonzero_cells_contains(grid, 81, p);
    if s.is_given(x, y) {
        let k = choose|k: int| 0 <= k < s.given@.len() && #[trigger] s.given@[k] == p;
        assert(s.given@.contains(p));
    }
    if s.given@.contains(p) {
        let k = choose|k: int| 0 <= k < s.given@.len() && s.given@[k] == p;
        assert(s.given@[k] == p);
        assert(s.is_given(x, y));
    }
}

impl Sudoku {
    /// Builds a puzzle from a grid alone, taking every non-empty cell as a
    /// given; `None` exactly when the grid is not nine rows of nine colors
    /// in 0..=9.
    #[verifier::loop_isolation(false)]
    pub fn from_grid(grid: Vec<Vec<u8>>) -> (r: Option<Sudoku>)
        ensures
            match r {
                Some(s) => {
                    &&& s.wf()
                    &&& s.grid@ == grid@
                    &&& s.given@ == nonzero_cells(grid@, 81)
                },
                None => !grid_ok(grid@),
            },
    {
        if grid.len() != 9 {
            return None;
        }
        let mut y: usize = 0;
        while y < 9
            invariant
                y <= 9,
                grid@.len() == 9,
                forall|y2: int| 0 <= y2 < y ==> (#[trigger] grid@[y2])@.len() == 9,
                forall|y2: int, x2: int|
                    0 <= y2 < y && 0 <= x2 < 9 ==> #[trigger] grid@[y2]@[x2] <= 9,
            decreases 9 - y,
        {
            if grid[y].len() != 9 {
                return None;
            }
            let mut x: usize = 0;
            while x < 9
                invariant
                    x <= 9,
                    grid@[y as int]@.len() == 9,
                    forall|x2: int| 0 <= x2 < x ==> #[trigger] grid@[y as int]@[x2] <= 9,
                decreases 9 - x,
            {
                if grid[y][x] > 9 {
                    return None;
                }
                x += 1;
            }
            y += 1;
        }
        let mut given: Vec<(usize, usize)> = Vec::new();
        let mut y: usize = 0;
        proof {
            assert(given@ =~= nonzero_cells(grid@, 0));
        }
        while y < 9
            invariant
                y <= 9,
                given@ == nonzero_cells(grid@, 9 * y),
            decreases 9 - y,
        {
            let mut x: usize = 0;
            while x < 9
                invariant
                    x <= 9,
                    given@ == nonzero_cells(grid@, 9 * y + x),
                decreases 9 - x,
            {
                if grid[y][x] != 0 {
                    given.push((x, y));
                }
                proof {
                    let c = 9 * y + x;
                    assert(row_of(c as int) == y && col_of(c as int) == x);
                    assert(given@ =~= nonzero_cells(grid@, c + 1));
                }
                x += 1;
            }
            y += 1;
        }
        let s = Sudoku { grid, given };
        proof {
            lemma_nonzero_cells_wf(s.grid@, 81);
        }
        Some(s)
    }

    /// The all-empty puzzle: a 9×9 grid of zeros with no givens.
    #[verifier::loop_isolation(false)]
    pub fn empty() -> (s: Sudoku)
        ensures
            s.wf(),
            s.given@.len() == 0,
            forall|x: int, y: int| 0 <= x < 9 && 0 <= y < 9 ==> #[trigger] s.cell(x, y) == 0,
    {
        let mut grid: Vec<Vec<u8>> = Vec::new();
        let mut y: usize = 0;
        while y < 9
            invariant
                y <= 9,
                grid@.len() == y,
                forall|y2: int| 0 <= y2 < y ==> (#[trigger] grid@[y2])@.len() == 9,
                forall|y2: int, x2: int|
                    0 <= y2 < y && 0 <= x2 < 9 ==> #[trigger] grid@[y2]@[x2] == 0,
            decreases 9 - y,
        {
            let mut row: Vec<u8> = Vec::new();
            let mut x: usize = 0;
            while x < 9
                invariant
                    x <= 9,
                    row@.len() == x,
                    forall|x2: int| 0 <= x2 < x ==> #[trigger] row@[x2] == 0,
                decreases 9 - x,
            {
                row.push(0);
                x += 1;
            }
            grid.push(row);
            y += 1;
        }
        Sudoku { grid, given: Vec::new() }
    }

    /// The canonical test puzzle: exactly the reference grid, with its 38
    /// filled cells as givens.
    pub fn reference_puzzle() -> (s: Sudoku)
        ensures
            s.wf(),
            s.grid@.len() == 9,
            forall|x: int, y: int|
                0 <= x < 9 && 0 <= y < 9 ==> #[trigger] s.cell(x, y) == reference_rows()[y][x],
            s.given@ == nonzero_cells(s.grid@, 81),
            s.given@.len() == 38,
    {
        let mut grid: Vec<Vec<u8>> = Vec::new();
        grid.push(vec![4, 0, 0, 0, 9, 6, 2, 0, 8]);
        grid.push(vec![3, 0, 8, 1, 0, 0, 0, 9, 0]);
        grid.push(vec![9, 6, 1, 0, 0, 0, 7, 0, 0]);
        grid.push(vec![0, 0, 3, 4, 0, 5, 9, 6, 0]);
        grid.push(vec![6, 0, 0, 9, 2, 8, 0, 7, 4]);
        grid.push(vec![0, 0, 4, 7, 0, 0, 1, 0, 0]);
        grid.push(vec![0, 0, 9, 0, 0, 2, 0, 0, 1]);
        grid.push(vec![0, 0, 0, 8, 3, 1, 6, 4, 0]);
        grid.push(vec![0, 0, 0, 0, 4, 0, 0, 2, 7]);
        proof {
            lemma_reference_grid_pinned(grid@);
        }
        let ghost built = grid@;
        match Sudoku::from_grid(grid) {
            Some(s) => {
                proof {
                    lemma_reference_given_count(built);
                }
                s
            },
            None => {
                proof {
                    assert(false);
                }
                Sudoku::empty()
            },
        }
    }
}

/// The nine rows of the canonical test puzzle, 0 marking an empty cell.
pub open spec fn reference_rows() -> Seq<Seq<u8>> {
    seq![
        seq![4u8, 0, 0, 0, 9, 6, 2, 0, 8],
        seq![3u8, 0, 8, 1, 0, 0, 0, 9, 0],
        seq![9u8, 6, 1, 0, 0, 0, 7, 0, 0],
        seq![0u8, 0, 3, 4, 0, 5, 9, 6, 0],
        seq![6u8, 0, 0, 9, 2, 8, 0, 7, 4],
        seq![0u8, 0, 4, 7, 0, 0, 1, 0, 0],
        seq![0u8, 0, 9, 0, 0, 2, 0, 0, 1],
        seq![0u8, 0, 0, 8, 3, 1, 6, 4, 0],
        seq![0u8, 0, 0, 0, 4, 0, 0, 2, 7],
    ]
}

/// A grid whose rows read back as the reference rows is well-shaped and
/// holds exactly the reference cells.
proof fn lemma_reference_grid_pinned(grid: Seq<Vec<u8>>)
    requires
        grid.len() == 9,
        forall|y: int| 0 <= y < 9 ==> (#[trigger] grid[y])@ == reference_rows()[y],
    ensures
        grid_ok(grid),
        forall|y: int, x: int|
            0 <= y < 9 && 0 <= x < 9 ==> #[trigger] grid[y]@[x] == reference_rows()[y][x],
{
    assert forall|y: int, x: int|
        0 <= y < 9 && 0 <= x < 9 implies #[trigger] grid[y]@[x] == reference_rows()[y][x]
        && grid[y]@[x] <= 9 by {
        assert(grid[y]@ == reference_rows()[y]);
        assert(reference_rows()[y].len() == 9);
        assert(reference_rows()[y][x] <= 9);
    }
    assert forall|y: int| 0 <= y < 9 implies (#[trigger] grid[y])@.len() == 9 by {
        assert(grid[y]@ == reference_rows()[y]);
    }
}

/// The reference grid has exactly 38 non-empty cells.
proof fn lemma_reference_given_count(grid: Seq<Vec<u8>>)
    requires
        grid.len() == 9,
        forall|y: int| 0 <= y < 9 ==> (#[trigger] grid[y])@ == reference_rows()[y],
    ensures
        nonzero_cells(grid, 81).len() == 38,
{
    lemma_reference_grid_pinned(grid);
    assert(nonzero_cells(grid, 9).len() == 5) by {
        reveal_with_fuel(nonzero_cells, 11);
    }
    assert(nonzero_cells(grid, 18).len() == 9) by {
        reveal_with_fuel(nonzero_cells, 11);
    }
    assert(nonzero_cells(grid, 27).len() == 13) by {
        reveal_with_fuel(nonzero_cells, 11);
    }
    assert(nonzero_cells(grid, 36).len() == 18) by {
        reveal_with_fuel(nonzero_cells, 11);
    }
    assert(nonzero_cells(grid, 45).len() == 24) by {
        reveal_with_fuel(nonzero_cells, 11);
    }
    assert(nonzero_cells(grid, 54).len() == 27) by {
        reveal_with_fuel(nonzero_cells, 11);
    }
    assert(nonzero_cells(grid, 63).len() == 30) by {
        reveal_with_fuel(nonzero_cells, 11);
    }
    assert(nonzero_cells(grid, 72).len() == 35) by {
        reveal_with_fuel(nonzero_cells, 11);
    }
    assert(nonzero_cells(grid, 81).len() == 38) by {
        reveal_with_fuel(nonzero_cells, 11);
    }
}

/// How many edges the three cell families contribute for cell index `c`:
/// the row cells to the right, the column cells below, and the two
/// same-box cells in each lower box row.
pub open spec fn cell_edge_count(c: int) -> int {
    (8 - col_of(c)) + (8 - row_of(c)) + 2 * (2 - row_of(c) % 3)
}

/// The number of cell-family edges contributed by cells `0..c`.
pub open spec fn edges_up_to(c: int) -> int
    decreases c,
{
    if c <= 0 {
        0
    } else {
        edges_up_to(c - 1) + cell_edge_count(c - 1)
    }
}

/// All 81 cells together contribute 810 edges: 324 row, 324 column, 162
/// intra-box.
pub proof fn lemma_edges_up_to_total()
    ensures
        edges_up_to(81) == 810,
{
    assert(edges_up_to(9) == 144) by {
        reveal_with_fuel(edges_up_to, 11);
    }
    assert(edges_up_to(18) == 261) by {
        reveal_with_fuel(edges_up_to, 11);
    }
    assert(edges_up_to(27) == 351) by {
        reveal_with_fuel(edges_up_to, 11);
    }
    assert(edges_up_to(36) == 468) by {
        reveal_with_fuel(edges_up_to, 11);
    }
    assert(edges_up_to(45) == 558) by {
        reveal_with_fuel(edges_up_to, 11);
    }
    assert(edges_up_to(54) == 621) by {
        reveal_with_fuel(edges_up_to, 11);
    }
    assert(edges_up_to(63) == 711) by {
        reveal_with_fuel(edges_up_to, 11);
    }
    assert(edges_up_to(72) == 774) by {
        reveal_with_fuel(edges_up_to, 11);
    }
    assert(edges_up_to(81) == 810) by {
        reveal_with_fuel(edges_up_to, 11);
    }
}

/// The cell-family edges whose generating cell lies below `c`.
pub open spec fn cell_edge_below(c: int, e: Edge) -> bool {
    cell_pair(e.0 as int, e.1 as int) && (e.0 as int) < c
}

/// The anchor edges generated by the first `k` entries of the given list.
pub open spec fn anchor_edge_below(s: &Sudoku, k: int, e: Edge) -> bool {
    exists|k2: int|
        0 <= k2 < k && {
            &&& e.0 == 9 * (#[trigger] s.given@[k2]).1 + s.given@[k2].0
            &&& 81 <= e.1 < 90
            &&& e.1 - 80 != s.cell(s.given@[k2].0 as int, s.given@[k2].1 as int)
        }
}

/// A value is a member of a concatenation exactly when it is a member of
/// either part.
proof fn lemma_concat_contains<A>(a: Seq<A>, b: Seq<A>, x: A)
    ensures
        (a + b).contains(x) <==> (a.contains(x) || b.contains(x)),
{
    if a.contains(x) {
        let i = choose|i: int| 0 <= i < a.len() && a[i] == x;
        assert((a + b)[i] == x);
    }
    if b.contains(x) {
        let i = choose|i: int| 0 <= i < b.len() && b[i] == x;
        assert((a + b)[a.len() + i] == x);
    }
    if (a + b).contains(x) {
        let i = choose|i: int| 0 <= i < (a + b).len() && (a + b)[i] == x;
        if i < a.len() {
            assert(a[i] == x);
        } else {
            assert(b[i - a.len()] == x);
        }
    }
}

/// A one-element sequence contains exactly that element.
proof fn lemma_singleton_contains<A>(v: A, x: A)
    ensures
        seq![v].contains(x) <==> v == x,
{
    if v == x {
        assert(seq![v][0] == x);
    }
}

/// The row-family edges of cell `(x, y)` against columns `x + 1 .. i` of
/// the same row.
pub open spec fn row_seq(y: int, x: int, i: int) -> Seq<Edge>
    decreases i - x,
{
    if i <= x + 1 {
        Seq::empty()
    } else {
        row_seq(y, x, i - 1).push(Edge((9 * y + x) as usize, (9 * y + i - 1) as usize))
    }
}

/// Membership in the row-family edges up to column `i`.
proof fn lemma_row_seq_contains(y: int, x: int, i: int, e: Edge)
    requires
        0 <= y < 9,
        0 <= x < 9,
        x + 1 <= i <= 9,
    ensures
        row_seq(y, x, i).contains(e) <==> (e.0 == 9 * y + x && 9 * y + x < e.1 < 9 * y + i),
    decreases i - x,
{
    if i == x + 1 {
    } else {
        lemma_row_seq_contains(y, x, i - 1, e);
        vstd::seq_lib::lemma_seq_contains_after_push(
            row_seq(y, x, i - 1),
            Edge((9 * y + x) as usize, (9 * y + i - 1) as usize),
            e,
        );
    }
}

/// The length of the row-family edges up to column `i`.
proof fn lemma_row_seq_len(y: int, x: int, i: int)
    requires
        x + 1 <= i,
    ensures
        row_seq(y, x, i).len() == i - (x + 1),
    decreases i - x,
{
    if i > x + 1 {
        lemma_row_seq_len(y, x, i - 1);
    }
}

/// The column-family edges of cell `(x, y)` against rows `y + 1 .. j`.
pub open spec fn col_seq(y: int, x: int, j: int) -> Seq<Edge>
    decreases j - y,
{
    if j <= y + 1 {
        Seq::empty()
    } else {
        col_seq(y, x, j - 1).push(Edge((9 * y + x) as usize, (9 * (j - 1) + x) as usize))
    }
}

/// Membership in the column-family edges up to row `j`.
proof fn lemma_col_seq_contains(y: int, x: int, j: int, e: Edge)
    requires
        0 <= y < 9,
        0 <= x < 9,
        y + 1 <= j <= 9,
    ensures
        col_seq(y, x, j).contains(e) <==> (e.0 == 9 * y + x && col_of(e.1 as int) == x && y
            < row_of(e.1 as int) < j),
    decreases j - y,
{
    if j == y + 1 {
    } else {
        lemma_col_seq_contains(y, x, j - 1, e);
        vstd::seq_lib::lemma_seq_contains_after_push(
            col_seq(y, x, j - 1),
            Edge((9 * y + x) as usize, (9 * (j - 1) + x) as usize),
            e,
        );
        assert(row_of((9 * (j - 1) + x) as int) == j - 1 && col_of((9 * (j - 1) + x) as int)
            == x);
        if e.0 == 9 * y + x && col_of(e.1 as int) == x && y < row_of(e.1 as int) < j {
            assert(e.1 == 9 * row_of(e.1 as int) + col_of(e.1 as int));
        }
    }
}

/// The length of the column-family edges up to row `j`.
proof fn lemma_col_seq_len(y: int, x: int, j: int)
    requires
        y + 1 <= j,
    ensures
        col_seq(y, x, j).len() == j - (y + 1),
    decreases j - y,
{
    if j > y + 1 {
        lemma_col_seq_len(y, x, j - 1);
    }
}

/// The box-family edges of cell `(x, y)` against box row `j`: the box's
/// other two columns.
pub open spec fn box_row_seq(y: int, x: int, j: int) -> Seq<Edge> {
    let c = (9 * y + x) as usize;
    let bx = (x / 3) * 3;
    (if bx != x {
        seq![Edge(c, (9 * j + bx) as usize)]
    } else {
        Seq::empty()
    }) + (if bx + 1 != x {
        seq![Edge(c, (9 * j + bx + 1) as usize)]
    } else {
        Seq::empty()
    }) + (if bx + 2 != x {
        seq![Edge(c, (9 * j + bx + 2) as usize)]
    } else {
        Seq::empty()
    })
}

/// The box-family edges of cell `(x, y)` against box rows `y + 1 .. j`.
pub open spec fn box_seq(y: int, x: int, j: int) -> Seq<Edge>
    decreases j - y,
{
    if j <= y + 1 {
        Seq::empty()
    } else {
        box_seq(y, x, j - 1) + box_row_seq(y, x, j - 1)
    }
}

/// One box row contributes exactly two edges.
proof fn lemma_box_row_len(y: int, x: int, j: int)
    requires
        0 <= x < 9,
    ensures
        box_row_seq(y, x, j).len() == 2,
{
    let bx = (x / 3) * 3;
    assert(bx <= x < bx + 3);
}

/// Membership in one box row's edges.
proof fn lemma_box_row_contains(y: int, x: int, j: int, e: Edge)
    requires
        0 <= y < 9,
        0 <= x < 9,
        y < j < 9,
        j / 3 == y / 3,
    ensures
        box_row_seq(y, x, j).contains(e) <==> (e.0 == 9 * y + x && row_of(e.1 as int) == j
            && same_box(9 * y + x, e.1 as int) && col_of(e.1 as int) != x),
{
    let c = (9 * y + x) as usize;
    let bx = (x / 3) * 3;
    let s0: Seq<Edge> = if bx != x {
        seq![Edge(c, (9 * j + bx) as usize)]
    } else {
        Seq::empty()
    };
    let s1: Seq<Edge> = if bx + 1 != x {
        seq![Edge(c, (9 * j + bx + 1) as usize)]
    } else {
        Seq::empty()
    };
    let s2: Seq<Edge> = if bx + 2 != x {
        seq![Edge(c, (9 * j + bx + 2) as usize)]
    } else {
        Seq::empty()
    };
    lemma_concat_contains(s0, s1, e);
    lemma_concat_contains(s0 + s1, s2, e);
    lemma_singleton_contains(Edge(c, (9 * j + bx) as usize), e);
    lemma_singleton_contains(Edge(c, (9 * j + bx + 1) as usize), e);
    lemma_singleton_contains(Edge(c, (9 * j + bx + 2) as usize), e);
    assert(bx <= x < bx + 3);
    assert(bx / 3 == x / 3 && (bx + 1) / 3 == x / 3 && (bx + 2) / 3 == x / 3);
    assert(row_of(c as int) == y && col_of(c as int) == x);
    assert(row_of((9 * j + bx) as int) == j && col_of((9 * j + bx) as int) == bx);
    assert(row_of((9 * j + bx + 1) as int) == j && col_of((9 * j + bx + 1) as int) == bx + 1);
    assert(row_of((9 * j + bx + 2) as int) == j && col_of((9 * j + bx + 2) as int) == bx + 2);
    if e.0 == 9 * y + x && row_of(e.1 as int) == j && same_box(9 * y + x, e.1 as int) && col_of(
        e.1 as int,
    ) != x {
        assert(e.1 == 9 * row_of(e.1 as int) + col_of(e.1 as int));
        assert(col_of(e.1 as int) / 3 == x / 3);
        assert(bx <= col_of(e.1 as int) < bx + 3);
    }
}

/// Membership in the box-family edges up to box row `j`.
proof fn lemma_box_seq_contains(y: int, x: int, j: int, e: Edge)
    requires
        0 <= y < 9,
        0 <= x < 9,
        y + 1 <= j <= (y / 3) * 3 + 3,
    ensures
        box_seq(y, x, j).contains(e) <==> (e.0 == 9 * y + x && same_box(9 * y + x, e.1 as int)
            && col_of(e.1 as int) != x && y < row_of(e.1 as int) < j),
    decreases j - y,
{
    if j == y + 1 {
    } else {
        lemma_box_seq_contains(y, x, j - 1, e);
        lemma_concat_contains(box_seq(y, x, j - 1), box_row_seq(y, x, j - 1), e);
        lemma_box_row_contains(y, x, j - 1, e);
    }
}

/// The length of the box-family edges up to box row `j`.
proof fn lemma_box_seq_len(y: int, x: int, j: int)
    requires
        0 <= x < 9,
        y + 1 <= j,
    ensures
        box_seq(y, x, j).len() == 2 * (j - (y + 1)),
    decreases j - y,
{
    if j > y + 1 {
        lemma_box_seq_len(y, x, j - 1);
        lemma_box_row_len(y, x, j - 1);
    }
}

/// All cell-family edges generated by cell `(x, y)`, in builder order.
pub open spec fn cell_seq(y: int, x: int) -> Seq<Edge> {
    row_seq(y, x, 9) + col_seq(y, x, 9) + box_seq(y, x, (y / 3) * 3 + 3)
}

/// Splits the cell pairs generated by cell `(x, y)` into the three
/// disjoint families the builder walks: the rest of the row, the rest of
/// the column, and the other columns of the lower box rows.
pub proof fn lemma_cell_pair_families(y: int, x: int, t: int)
    requires
        0 <= y < 9,
        0 <= x < 9,
    ensures
        cell_pair(9 * y + x, t) <==> ({
            ||| (row_of(t) == y && 9 * y + x < t < 81)
            ||| (col_of(t) == x && y < row_of(t) < 9)
            ||| (same_box(9 * y + x, t) && col_of(t) != x && y < row_of(t) < (y / 3) * 3 + 3)
        }),
{
    let c = 9 * y + x;
    assert(row_of(c) == y && col_of(c) == x);
    if cell_pair(c, t) {
        assert(t == 9 * row_of(t) + col_of(t));
    }
    if col_of(t) == x && y < row_of(t) < 9 {
        assert(t == 9 * row_of(t) + col_of(t));
    }
    if same_box(c, t) && col_of(t) != x && y < row_of(t) < (y / 3) * 3 + 3 {
        assert(t == 9 * row_of(t) + col_of(t));
    }
}

/// Membership in one cell's family edges: exactly the cell pairs whose
/// smaller endpoint is that cell.
proof fn lemma_cell_seq_contains(y: int, x: int, e: Edge)
    requires
        0 <= y < 9,
        0 <= x < 9,
    ensures
        cell_seq(y, x).contains(e) <==> (e.0 == 9 * y + x && cell_pair(9 * y + x, e.1 as int)),
{
    lemma_concat_contains(row_seq(y, x, 9), col_seq(y, x, 9), e);
    lemma_concat_contains(row_seq(y, x, 9) + col_seq(y, x, 9), box_seq(y, x, (y / 3) * 3 + 3), e);
    lemma_row_seq_contains(y, x, 9, e);
    lemma_col_seq_contains(y, x, 9, e);
    lemma_box_seq_contains(y, x, (y / 3) * 3 + 3, e);
    lemma_cell_pair_families(y, x, e.1 as int);
    if e.0 == 9 * y + x && cell_pair(9 * y + x, e.1 as int) {
        assert(e.1 == 9 * row_of(e.1 as int) + col_of(e.1 as int));
    }
}

/// The number of family edges of one cell.
proof fn lemma_cell_seq_len(y: int, x: int)
    requires
        0 <= y < 9,
        0 <= x < 9,
    ensures
        cell_seq(y, x).len() == cell_edge_count(9 * y + x),
{
    lemma_row_seq_len(y, x, 9);
    lemma_col_seq_len(y, x, 9);
    lemma_box_seq_len(y, x, (y / 3) * 3 + 3);
    assert(row_of(9 * y + x) == y && col_of(9 * y + x) == x);
}

/// The family edges of all cells below index `c`, in builder order.
pub open spec fn cells_seq(c: int) -> Seq<Edge>
    decreases c,
{
    if c <= 0 {
        Seq::empty()
    } else {
        cells_seq(c - 1) + cell_seq(row_of(c - 1), col_of(c - 1))
    }
}

/// Membership in the family edges of the cells below `c`.
proof fn lemma_cells_seq_contains(c: int, e: Edge)
    requires
        0 <= c <= 81,
    ensures
        cells_seq(c).contains(e) <==> cell_edge_below(c, e),
    decreases c,
{
    if c > 0 {
        lemma_cells_seq_contains(c - 1, e);
        let y = row_of(c - 1);
        let x = col_of(c - 1);
        assert(9 * y + x == c - 1);
        lemma_concat_contains(cells_seq(c - 1), cell_seq(y, x), e);
        lemma_cell_seq_contains(y, x, e);
    }
}

/// The number of family edges of the cells below `c`.
proof fn lemma_cells_seq_len(c: int)
    requires
        0 <= c <= 81,
    ensures
        cells_seq(c).len() == edges_up_to(c),
    decreases c,
{
    if c > 0 {
        lemma_cells_seq_len(c - 1);
        let y = row_of(c - 1);
        let x = col_of(c - 1);
        assert(9 * y + x == c - 1);
        lemma_cell_seq_len(y, x);
    }
}

/// The anchor edges of the given cell at node `a` with value `value`,
/// against the palette anchors of colors `1 .. w`.
pub open spec fn anchor_seq(a: usize, value: u8, w: int) -> Seq<Edge>
    decreases w,
{
    if w <= 1 {
        Seq::empty()
    } else {
        anchor_seq(a, value, w - 1) + (if w - 1 != value {
            seq![Edge(a, (80 + w - 1) as usize)]
        } else {
            Seq::empty()
        })
    }
}

/// Membership in the anchor edges of one given cell.
proof fn lemma_anchor_seq_contains(a: usize, value: u8, w: int, e: Edge)
    requires
        1 <= w <= 10,
    ensures
        anchor_seq(a, value, w).contains(e) <==> (e.0 == a && 81 <= e.1 < 80 + w && e.1 - 80
            != value),
    decreases w,
{
    if w > 1 {
        lemma_anchor_seq_contains(a, value, w - 1, e);
        let tail: Seq<Edge> = if w - 1 != value {
            seq![Edge(a, (80 + w - 1) as usize)]
        } else {
            Seq::empty()
        };
        lemma_concat_contains(anchor_seq(a, value, w - 1), tail, e);
        lemma_singleton_contains(Edge(a, (80 + w - 1) as usize), e);
    }
}

/// The length of the anchor edges of one given cell against colors
/// `1 .. w`.
proof fn lemma_anchor_seq_len(a: usize, value: u8, w: int)
    requires
        1 <= w <= 10,
    ensures
        anchor_seq(a, value, w).len() == (w - 1) - (if 0 < value < w {
            1int
        } else {
            0
        }),
    decreases w,
{
    if w > 1 {
        lemma_anchor_seq_len(a, value, w - 1);
    }
}

/// The node index of given entry `k`.
pub open spec fn given_node(s: &Sudoku, k: int) -> usize {
    (9 * s.given@[k].1 + s.given@[k].0) as usize
}

/// The value of given entry `k`.
pub open spec fn given_value(s: &Sudoku, k: int) -> u8 {
    s.cell(s.given@[k].0 as int, s.given@[k].1 as int)
}

/// The anchor edges of given entry `k`.
pub open spec fn given_anchor_seq(s: &Sudoku, k: int) -> Seq<Edge> {
    anchor_seq(given_node(s, k), given_value(s, k), 10)
}

/// The anchor edges of the first `k` given entries, in builder order.
pub open spec fn anchors_seq(s: &Sudoku, k: int) -> Seq<Edge>
    decreases k,
{
    if k <= 0 {
        Seq::empty()
    } else {
        anchors_seq(s, k - 1) + given_anchor_seq(s, k - 1)
    }
}

/// One given cell's anchor edges, added to those of the earlier givens, are
/// exactly the anchor edges of the first `k + 1` givens.
proof fn lemma_anchor_step(s: &Sudoku, k: int, e: Edge)
    requires
        s.wf(),
        0 <= k < s.given@.len(),
    ensures
        (anchor_edge_below(s, k, e) || (e.0 == given_node(s, k) && 81 <= e.1 < 90 && e.1 - 80
            != given_value(s, k))) <==> anchor_edge_below(s, k + 1, e),
{
    assert((#[trigger] s.given@[k]).0 < 9 && s.given@[k].1 < 9);
    if anchor_edge_below(s, k, e) {
        let k2 = choose|k2: int|
            0 <= k2 < k && {
                &&& e.0 == 9 * (#[trigger] s.given@[k2]).1 + s.given@[k2].0
                &&& 81 <= e.1 < 90
                &&& e.1 - 80 != s.cell(s.given@[k2].0 as int, s.given@[k2].1 as int)
            };
        assert(anchor_edge_below(s, k + 1, e));
    }
    if e.0 == given_node(s, k) && 81 <= e.1 < 90 && e.1 - 80 != given_value(s, k) {
        assert(e.0 == 9 * s.given@[k].1 + s.given@[k].0);
        assert(anchor_edge_below(s, k + 1, e));
    }
    if anchor_edge_below(s, k + 1, e) {
        let k2 = choose|k2: int|
            0 <= k2 < k + 1 && {
                &&& e.0 == 9 * (#[trigger] s.given@[k2]).1 + s.given@[k2].0
                &&& 81 <= e.1 < 90
                &&& e.1 - 80 != s.cell(s.given@[k2].0 as int, s.given@[k2].1 as int)
            };
        if k2 < k {
            assert(anchor_edge_below(s, k, e));
        } else {
            assert(e.0 == given_node(s, k) && e.1 - 80 != given_value(s, k));
        }
    }
}

/// Membership in the anchor edges of the first `k` given entries.
proof fn lemma_anchors_seq_contains(s: &Sudoku, k: int, e: Edge)
    requires
        s.wf(),
        0 <= k <= s.given@.len(),
    ensures
        anchors_seq(s, k).contains(e) <==> anchor_edge_below(s, k, e),
    decreases k,
{
    if k > 0 {
        lemma_anchors_seq_contains(s, k - 1, e);
        lemma_concat_contains(anchors_seq(s, k - 1), given_anchor_seq(s, k - 1), e);
        lemma_anchor_seq_contains(given_node(s, k - 1), given_value(s, k - 1), 10, e);
        lemma_anchor_step(s, k - 1, e);
    }
}

/// The length of the anchor edges of the first `k` given entries.
proof fn lemma_anchors_seq_len(s: &Sudoku, k: int)
    requires
        s.wf(),
        0 <= k <= s.given@.len(),
    ensures
        anchors_seq(s, k).len() == 8 * k,
    decreases k,
{
    if k > 0 {
        lemma_anchors_seq_len(s, k - 1);
        assert((#[trigger] s.given@[k - 1]).0 < 9);
        lemma_anchor_seq_len(given_node(s, k - 1), given_value(s, k - 1), 10);
    }
}

/// The full edge sequence of the constraint graph of `s`: the cell-family
/// edges of all 81 cells in row-major order, then the anchor edges of each
/// given in list order.
pub open spec fn graph_edges(s: &Sudoku) -> Seq<Edge> {
    cells_seq(81) + anchors_seq(s, s.given@.len() as int)
}

/// The constraint graph has exactly `810 + 8 * |given|` edges.
pub proof fn lemma_graph_edges_len(s: &Sudoku)
    requires
        s.wf(),
    ensures
        graph_edges(s).len() == 810 + 8 * s.given@.len(),
{
    lemma_cells_seq_len(81);
    lemma_edges_up_to_total();
    lemma_anchors_seq_len(s, s.given@.len() as int);
}

/// The constraint graph's edge sequence holds exactly the constraint pairs
/// of the puzzle.
pub proof fn lemma_graph_edges_members(s: &Sudoku, e: Edge)
    requires
        s.wf(),
    ensures
        graph_edges(s).contains(e) <==> s.constraint_edge(e),
{
    let gn = s.given@.len() as int;
    lemma_concat_contains(cells_seq(81), anchors_seq(s, gn), e);
    lemma_cells_seq_contains(81, e);
    lemma_anchors_seq_contains(s, gn, e);
    if anchor_edge_below(s, gn, e) {
        let k2 = choose|k2: int|
            0 <= k2 < gn && {
                &&& e.0 == 9 * (#[trigger] s.given@[k2]).1 + s.given@[k2].0
                &&& 81 <= e.1 < 90
                &&& e.1 - 80 != s.cell(s.given@[k2].0 as int, s.given@[k2].1 as int)
            };
        assert(s.given@[k2] == ((s.given@[k2].0) as usize, (s.given@[k2].1) as usize));
        assert(s.is_given(col_of(e.0 as int), row_of(e.0 as int)));
        assert(s.anchor_pair(e.0 as int, e.1 as int));
    }
    if s.anchor_pair(e.0 as int, e.1 as int) {
        let a = e.0 as int;
        let k2 = choose|k2: int|
            0 <= k2 < s.given@.len() && #[trigger] s.given@[k2] == (
                col_of(a) as usize,
                row_of(a) as usize,
            );
        assert(9 * s.given@[k2].1 + s.given@[k2].0 == a);
        assert(anchor_edge_below(s, gn, e));
    }
}

/// Every constraint edge is ordered and within the 90 nodes.
pub proof fn lemma_constraint_edge_ordered(s: &Sudoku, e: Edge)
    requires
        s.constraint_edge(e),
    ensures
        e.0 < e.1 < 90,
{
}

/// The 90 node colors of the constraint graph of `s`: the 81 cell colors
/// in row-major order, then the nine anchor colors.
pub open spec fn graph_colors(s: &Sudoku) -> Seq<u8> {
    Seq::new(90, |n: int| if n < 81 {
        s.cell(col_of(n), row_of(n))
    } else {
        (n - 80) as u8
    })
}

/// The 81 cell colors of `s`, in row-major order.
pub open spec fn cells_of(s: &Sudoku) -> Seq<u8> {
    Seq::new(81, |n: int| s.cell(col_of(n), row_of(n)))
}

/// The node colors split into the cells and the anchor palette.
pub proof fn lemma_graph_colors_split(s: &Sudoku)
    ensures
        graph_colors(s) == cells_of(s) + anchor_colors(),
        graph_colors(s).take(81) == cells_of(s),
{
    assert(graph_colors(s) =~= cells_of(s) + anchor_colors());
    assert(graph_colors(s).take(81) =~= cells_of(s));
}

/// A proper anchored 9-coloring of the constraint graph of `s`: every node
/// colored 1..=9, anchor `80 + v` colored `v`, no constraint edge with
/// equal endpoint colors.
pub open spec fn proper_coloring(s: &Sudoku, colors: Seq<u8>) -> bool {
    &&& colors.len() == 90
    &&& forall|i: int| 0 <= i < 90 ==> 1 <= #[trigger] colors[i] <= 9
    &&& forall|i: int| 81 <= i < 90 ==> #[trigger] colors[i] == i - 80
    &&& forall|e: Edge| s.constraint_edge(e) ==> colors[e.0 as int] != colors[e.1 as int]
}

/// A complete assignment of the 81 cells that solves the puzzle: every
/// cell filled with 1..=9, no two constrained cells equal, every given
/// kept at its stated value.
pub open spec fn valid_completion(s: &Sudoku, sol: Seq<u8>) -> bool {
    &&& sol.len() == 81
    &&& forall|i: int| 0 <= i < 81 ==> 1 <= #[trigger] sol[i] <= 9
    &&& forall|a: int, b: int| cell_pair(a, b) ==> sol[a] != sol[b]
    &&& forall|x: int, y: int|
        0 <= x < 9 && 0 <= y < 9 && #[trigger] s.is_given(x, y) ==> sol[9 * y + x] == s.cell(
            x,
            y,
        )
}

/// The nine palette anchor colors, in node order.
pub open spec fn anchor_colors() -> Seq<u8> {
    Seq::new(9, |i: int| (i + 1) as u8)
}

/// Law: a proper anchored coloring of the constraint graph, restricted to
/// the 81 cell nodes, is a valid completion of the puzzle.  The row,
/// column and box edges force the Sudoku distinctness rules; the anchor
/// edges force every given cell back to its stated value.
pub proof fn lemma_coloring_to_completion(s: &Sudoku, colors: Seq<u8>)
    requires
        s.wf(),
        proper_coloring(s, colors),
    ensures
        valid_completion(s, colors.take(81)),
{
    let sol = colors.take(81);
    assert forall|a: int, b: int| cell_pair(a, b) implies sol[a] != sol[b] by {
        let e = Edge(a as usize, b as usize);
        assert(s.constraint_edge(e));
        assert(colors[e.0 as int] != colors[e.1 as int]);
    }
    assert forall|x: int, y: int|
        0 <= x < 9 && 0 <= y < 9 && #[trigger] s.is_given(x, y) implies sol[9 * y + x]
        == s.cell(x, y) by {
        let a = 9 * y + x;
        let v = s.cell(x, y);
        let k = choose|k: int|
            0 <= k < s.given@.len() && #[trigger] s.given@[k] == (x as usize, y as usize);
        assert(1 <= v <= 9);
        assert(row_of(a) == y && col_of(a) == x);
        let ca = colors[a];
        assert(1 <= ca <= 9);
        if ca != v {
            let e = Edge(a as usize, (80 + ca) as usize);
            assert(s.anchor_pair(a, 80 + ca));
            assert(s.constraint_edge(e));
            assert(colors[80 + ca] == ca);
            assert(colors[a] != colors[80 + ca]);
            assert(false);
        }
    }
}

/// Law: a proper anchored coloring is determined by its cell part — the
/// anchor tail is always the palette.  With the two conversion lemmas this
/// makes the correspondence between proper anchored colorings and valid
/// completions one-to-one.
pub proof fn lemma_coloring_determined_by_cells(s: &Sudoku, colors: Seq<u8>)
    requires
        proper_coloring(s, colors),
    ensures
        colors == colors.take(81) + anchor_colors(),
{
    assert(colors =~= colors.take(81) + anchor_colors());
}

/// Law: a valid completion of the puzzle, followed by the nine anchor
/// colors, is a proper anchored coloring of the constraint graph.
pub proof fn lemma_completion_to_coloring(s: &Sudoku, sol: Seq<u8>)
    requires
        s.wf(),
        valid_completion(s, sol),
    ensures
        proper_coloring(s, sol + anchor_colors()),
{
    let colors = sol + anchor_colors();
    assert(colors.len() == 90);
    assert forall|i: int| 0 <= i < 90 implies 1 <= #[trigger] colors[i] <= 9 by {
        if i >= 81 {
            assert(colors[i] == anchor_colors()[i - 81]);
        } else {
            assert(colors[i] == sol[i]);
        }
    }
    assert forall|i: int| 81 <= i < 90 implies #[trigger] colors[i] == i - 80 by {
        assert(colors[i] == anchor_colors()[i - 81]);
    }
    assert forall|e: Edge|
        s.constraint_edge(e) implies colors[e.0 as int] != colors[e.1 as int] by {
        let a = e.0 as int;
        let b = e.1 as int;
        if cell_pair(a, b) {
            assert(colors[a] == sol[a] && colors[b] == sol[b]);
        } else {
            assert(s.anchor_pair(a, b));
            let x = col_of(a);
            let y = row_of(a);
            assert(a == 9 * y + x);
            assert(0 <= x < 9 && 0 <= y < 9);
            assert(sol[a] == s.cell(x, y));
            assert(colors[b] == anchor_colors()[b - 81]);
            assert(colors[b] == b - 80);
            assert(colors[a] == sol[a]);
        }
    }
}

/// Appends the row-family edges of cell `(x, y)`.
#[verifier::loop_isolation(false)]
fn push_row_edges(edges0: Vec<Edge>, y: usize, x: usize) -> (edges: Vec<Edge>)
    requires
        y < 9,
        x < 9,
    ensures
        edges@ == edges0@ + row_seq(y as int, x as int, 9),
{
    let mut edges = edges0;
    let ghost pre = edges@;
    let c: usize = 9 * y + x;
    let mut i: usize = x + 1;
    proof {
        assert(edges@ =~= pre + row_seq(y as int, x as int, i as int));
    }
    while i < 9
        invariant
            x + 1 <= i <= 9,
            edges@ == pre + row_seq(y as int, x as int, i as int),
        decreases 9 - i,
    {
        edges.push(Edge(c, 9 * y + i));
        proof {
            assert(edges@ =~= pre + row_seq(y as int, x as int, i + 1));
        }
        i += 1;
    }
    edges
}

/// Appends the column-family edges of cell `(x, y)`.
#[verifier::loop_isolation(false)]
fn push_col_edges(edges0: Vec<Edge>, y: usize, x: usize) -> (edges: Vec<Edge>)
    requires
        y < 9,
        x < 9,
    ensures
        edges@ == edges0@ + col_seq(y as int, x as int, 9),
{
    let mut edges = edges0;
    let ghost pre = edges@;
    let c: usize = 9 * y + x;
    let mut j: usize = y + 1;
    proof {
        assert(edges@ =~= pre + col_seq(y as int, x as int, j as int));
    }
    while j < 9
        invariant
            y + 1 <= j <= 9,
            edges@ == pre + col_seq(y as int, x as int, j as int),
        decreases 9 - j,
    {
        edges.push(Edge(c, 9 * j + x));
        proof {
            assert(edges@ =~= pre + col_seq(y as int, x as int, j + 1));
        }
        j += 1;
    }
    edges
}

/// Appends the box-family edges of cell `(x, y)`.
#[verifier::loop_isolation(false)]
fn push_box_edges(edges0: Vec<Edge>, y: usize, x: usize) -> (edges: Vec<Edge>)
    requires
        y < 9,
        x < 9,
    ensures
        edges@ == edges0@ + box_seq(y as int, x as int, (y as int) / 3 * 3 + 3),
{
    let mut edges = edges0;
    let ghost pre = edges@;
    let c: usize = 9 * y + x;
    let box_end: usize = (y / 3) * 3 + 3;
    let bx: usize = (x / 3) * 3;
    let mut j: usize = y + 1;
    proof {
        assert(edges@ =~= pre + box_seq(y as int, x as int, j as int));
    }
    while j < box_end
        invariant
            y + 1 <= j <= box_end,
            edges@ == pre + box_seq(y as int, x as int, j as int),
        decreases box_end - j,
    {
        if bx != x {
            edges.push(Edge(c, 9 * j + bx));
        }
        if bx + 1 != x {
            edges.push(Edge(c, 9 * j + bx + 1));
        }
        if bx + 2 != x {
            edges.push(Edge(c, 9 * j + bx + 2));
        }
        proof {
            assert(edges@ =~= pre + box_seq(y as int, x as int, j + 1));
        }
        j += 1;
    }
    edges
}

/// Appends the row-, column- and box-family edges generated by the cell in
/// column `x`, row `y`.
fn push_cell_edges(edges0: Vec<Edge>, y: usize, x: usize) -> (edges: Vec<Edge>)
    requires
        y < 9,
        x < 9,
    ensures
        edges@ == edges0@ + cell_seq(y as int, x as int),
{
    let edges = push_box_edges(push_col_edges(push_row_edges(edges0, y, x), y, x), y, x);
    proof {
        assert(edges@ =~= edges0@ + cell_seq(y as int, x as int));
    }
    edges
}

/// Appends the eight anchor edges of given cell `k`.
#[verifier::loop_isolation(false)]
fn push_anchor_edges(edges0: Vec<Edge>, s: &Sudoku, k: usize) -> (edges: Vec<Edge>)
    requires
        s.wf(),
        k < s.given@.len(),
    ensures
        edges@ == edges0@ + given_anchor_seq(s, k as int),
{
    let mut edges = edges0;
    let ghost pre = edges@;
    let cell = s.given[k];
    let gx = cell.0;
    let gy = cell.1;
    let value = s.grid[gy][gx];
    let a: usize = 9 * gy + gx;
    proof {
        assert(a == given_node(s, k as int));
        assert(value == given_value(s, k as int));
    }
    let mut w: usize = 1;
    proof {
        assert(edges@ =~= pre + anchor_seq(a, value, w as int));
    }
    while w <= 9
        invariant
            1 <= w <= 10,
            edges@ == pre + anchor_seq(a, value, w as int),
        decreases 10 - w,
    {
        if w != value as usize {
            edges.push(Edge(a, 80 + w));
        }
        proof {
            assert(edges@ =~= pre + anchor_seq(a, value, w + 1));
        }
        w += 1;
    }
    edges
}

/// The 90 node colors of the constraint graph: the 81 cells in row-major
/// order, then the nine palette anchors.
#[verifier::loop_isolation(false)]
fn graph_nodes(s: &Sudoku) -> (nodes: Vec<u8>)
    requires
        s.grid_wf(),
    ensures
        nodes@.len() == 90,
        forall|n: int| 0 <= n < 81 ==> #[trigger] nodes@[n] == s.cell(col_of(n), row_of(n)),
        forall|n: int| 81 <= n < 90 ==> #[trigger] nodes@[n] == (n - 80) as u8,
{
    let mut nodes: Vec<u8> = Vec::new();
    let mut y: usize = 0;
    while y < 9
        invariant
            y <= 9,
            nodes@.len() == 9 * y,
            forall|n: int| 0 <= n < 9 * y ==> #[trigger] nodes@[n] == s.cell(col_of(n), row_of(n)),
        decreases 9 - y,
    {
        let mut x: usize = 0;
        while x < 9
            invariant
                x <= 9,
                nodes@.len() == 9 * y + x,
                forall|n: int|
                    0 <= n < 9 * y + x ==> #[trigger] nodes@[n] == s.cell(col_of(n), row_of(n)),
            decreases 9 - x,
        {
            nodes.push(s.grid[y][x]);
            x += 1;
        }
        y += 1;
    }
    let mut v: usize = 1;
    while v <= 9
        invariant
            1 <= v <= 10,
            nodes@.len() == 80 + v,
            forall|n: int| 0 <= n < 81 ==> #[trigger] nodes@[n] == s.cell(col_of(n), row_of(n)),
            forall|n: int| 81 <= n < 80 + v ==> #[trigger] nodes@[n] == (n - 80) as u8,
        decreases 10 - v,
    {
        nodes.push(v as u8);
        v += 1;
    }
    nodes
}

/// Builds the constraint graph of `s`.
///
/// The nodes are the 81 cell colors in row-major order followed by the nine
/// palette anchors; the edges are exactly [`graph_edges`], each stored with
/// its smaller endpoint first ([`lemma_graph_edges_members`] characterizes
/// the edge set, [`lemma_graph_edges_len`] its size).
#[verifier::loop_isolation(false)]
pub fn graph_of(s: &Sudoku) -> (g: Graph<u8>)
    requires
        s.wf(),
    ensures
        g.nodes@.len() == 90,
        g.nodes@ == graph_colors(s),
        g.edges@ == graph_edges(s),
        g.edges@.len() == 810 + 8 * s.given@.len(),
        forall|n: int| 0 <= n < 81 ==> #[trigger] g.nodes@[n] == s.cell(col_of(n), row_of(n)),
        forall|n: int| 81 <= n < 90 ==> #[trigger] g.nodes@[n] == (n - 80) as u8,
        forall|k: int|
            0 <= k < g.edges@.len() ==> (#[trigger] g.edges@[k]).0 < g.edges@[k].1 && g.edges@[
                k
            ].1 < 90,
{
    let nodes = graph_nodes(s);
    let mut edges: Vec<Edge> = Vec::new();
    let mut y: usize = 0;
    proof {
        assert(edges@ =~= cells_seq(0));
    }
    while y < 9
        invariant
            y <= 9,
            edges@ == cells_seq(9 * y),
        decreases 9 - y,
    {
        let mut x: usize = 0;
        while x < 9
            invariant
                x <= 9,
                edges@ == cells_seq(9 * y + x),
            decreases 9 - x,
        {
            edges = push_cell_edges(edges, y, x);
            proof {
                let c = 9 * y + x;
                assert(row_of(c as int) == y && col_of(c as int) == x);
                assert(cells_seq(c + 1) == cells_seq(c as int) + cell_seq(y as int, x as int));
            }
            x += 1;
        }
        y += 1;
    }
    let gn = s.given.len();
    let mut k: usize = 0;
    proof {
        assert(edges@ =~= cells_seq(81) + anchors_seq(s, 0));
    }
    while k < gn
        invariant
            k <= gn,
            gn == s.given@.len(),
            edges@ == cells_seq(81) + anchors_seq(s, k as int),
        decreases gn - k,
    {
        edges = push_anchor_edges(edges, s, k);
        proof {
            assert(edges@ =~= cells_seq(81) + anchors_seq(s, k + 1));
        }
        k += 1;
    }
    proof {
        assert(nodes@ =~= graph_colors(s));
        lemma_graph_edges_len(s);
        assert forall|ki: int|
            0 <= ki < edges@.len() implies (#[trigger] edges@[ki]).0 < edges@[ki].1 && edges@[
        ki].1 < 90 by {
            assert(edges@.contains(edges@[ki]));
            lemma_graph_edges_members(s, edges@[ki]);
            lemma_constraint_edge_ordered(s, edges@[ki]);
        }
    }
    Graph { nodes, edges }
}

} // verus!
