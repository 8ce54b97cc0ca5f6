//! The mathematical model of the game: cells, grids, the neighbour count,
//! the rule, and the laws they obey.
use vstd::arithmetic::div_mod::{
    lemma_add_mod_noop_right, lemma_fundamental_div_mod_converse, lemma_mod_add_multiples_vanish,
    lemma_mod_bound, lemma_mod_self_0, lemma_small_mod,
};
use vstd::prelude::*;

verus! {

/// The state of one cell of the grid.
#[derive(Copy, Clone, Debug, PartialEq, Eq, Structural)]
pub enum Cell {
    Dead,
    Alive,
}

/// The mathematical model of a universe: its dimensions and its cells in
/// row-major order.
#[verifier::ext_equal]
pub struct Grid {
    pub width: nat,
    pub height: nat,
    pub cells: Seq<Cell>,
}

impl Grid {
    /// Positive dimensions, cell sequence of the matching length, and every
    /// flat index representable in a `u32`.
    pub open spec fn valid(self) -> bool {
        &&& 0 < self.width
        &&& 0 < self.height
        &&& self.width * self.height <= u32::MAX
        &&& self.cells.len() == self.width * self.height
    }

    /// Flat position of `(row, column)`.
    pub open spec fn index(self, row: int, column: int) -> int {
        row * self.width + column
    }

    pub open spec fn at(self, row: int, column: int) -> Cell {
        self.cells[self.index(row, column)]
    }

    /// The cell at offset `(d_row, d_column)` from `(row, column)`, both
    /// coordinates wrapped around the edges.
    pub open spec fn neighbour(self, row: int, column: int, d_row: int, d_column: int) -> Cell {
        self.at((row + d_row) % (self.height as int), (column + d_column) % (self.width as int))
    }

    /// 1 where that neighbour is alive, else 0.
    pub open spec fn neighbour_alive(self, row: int, column: int, d_row: int, d_column: int) -> int {
        if self.neighbour(row, column, d_row, d_column) == Cell::Alive {
            1
        } else {
            0
        }
    }

    /// Live cells among the eight offsets around `(row, column)`; the offset
    /// `(0, 0)` is left out.
    pub open spec fn live_neighbours(self, row: int, column: int) -> int {
        self.neighbour_alive(row, column, -1, -1) + self.neighbour_alive(row, column, -1, 0)
            + self.neighbour_alive(row, column, -1, 1) + self.neighbour_alive(row, column, 0, -1)
            + self.neighbour_alive(row, column, 0, 1) + self.neighbour_alive(row, column, 1, -1)
            + self.neighbour_alive(row, column, 1, 0) + self.neighbour_alive(row, column, 1, 1)
    }

    /// This grid with the cell at `(row, column)` made alive for each pair
    /// `(row, column)` of `coords`. A pair outside the grid names no cell.
    pub open spec fn seeded(self, coords: Seq<(u32, u32)>) -> Grid {
        Grid {
            width: self.width,
            height: self.height,
            cells: Seq::new(
                self.cells.len(),
                |i: int|
                    if listed(coords, self.width, self.height, i) {
                        Cell::Alive
                    } else {
                        self.cells[i]
                    },
            ),
        }
    }

    /// The printed form of row `row`: one symbol per column.
    pub open spec fn row_text(self, row: int) -> Seq<char> {
        Seq::new(self.width, |column: int| symbol(self.at(row, column)))
    }

    /// The first `n` rows, each followed by a line break.
    pub open spec fn rows_text(self, n: int) -> Seq<char>
        decreases n,
    {
        if n <= 0 {
            Seq::empty()
        } else {
            self.rows_text(n - 1) + self.row_text(n - 1) + seq!['\n']
        }
    }

    /// The printed form of the whole grid, row 0 first.
    pub open spec fn text(self) -> Seq<char> {
        self.rows_text(self.height as int)
    }

    /// Live neighbours seen at the first `k` of the nine offsets, taken in
    /// row-major order from `(-1, -1)` to `(1, 1)`; the middle one adds nothing.
    pub open spec fn counted(self, row: int, column: int, k: int) -> int
        decreases k,
    {
        if k <= 0 {
            0
        } else if k - 1 == 4 {
            self.counted(row, column, k - 1)
        } else {
            self.counted(row, column, k - 1) + self.neighbour_alive(
                row,
                column,
                (k - 1) / 3 - 1,
                (k - 1) % 3 - 1,
            )
        }
    }

    /// The generation that follows this one.
    pub open spec fn next(self) -> Grid {
        Grid {
            width: self.width,
            height: self.height,
            cells: Seq::new(
                self.cells.len(),
                |i: int|
                    next_state(
                        self.cells[i],
                        self.live_neighbours(i / (self.width as int), i % (self.width as int)),
                    ),
            ),
        }
    }
}

/// Whether some pair of `coords` lies inside a grid of `width` columns and
/// `height` rows and has the flat index `i` there.
pub open spec fn listed(coords: Seq<(u32, u32)>, width: nat, height: nat, i: int) -> bool {
    exists|k: int|
        0 <= k < coords.len() && coords[k].0 < height && coords[k].1 < width && coords[k].0
            * width + coords[k].1 == i
}

/// The printed form of a cell: a white square when dead, a black one when
/// alive.
pub open spec fn symbol(cell: Cell) -> char {
    match cell {
        Cell::Dead => '\u{25fb}',
        Cell::Alive => '\u{25fc}',
    }
}

/// The rule of the game: a live cell with two or three live neighbours stays
/// alive, a dead cell with exactly three comes alive, every other cell is dead.
pub open spec fn next_state(cell: Cell, live: int) -> Cell {
    match cell {
        Cell::Alive => if live == 2 || live == 3 {
            Cell::Alive
        } else {
            Cell::Dead
        },
        Cell::Dead => if live == 3 {
            Cell::Alive
        } else {
            Cell::Dead
        },
    }
}

/// The next generation is a function of the current one: equal grids advance
/// to equal grids.
pub proof fn lemma_next_deterministic(a: Grid, b: Grid)
    requires
        a.valid(),
        b.valid(),
        a.width == b.width,
        a.height == b.height,
        a.cells == b.cells,
    ensures
        a.next() == b.next(),
{
    assert(a == b);
}

/// The edges wrap around: the neighbour above a cell of the top row is the
/// cell of the bottom row in the same column, and the neighbour below a cell
/// of the bottom row is the cell of the top row; a live cell there counts
/// among the live neighbours. Likewise for the left and right edges.
pub proof fn lemma_wraparound(g: Grid, row: int, column: int)
    requires
        g.valid(),
        0 <= row < g.height,
        0 <= column < g.width,
    ensures
        g.neighbour(0, column, -1, 0) == g.at(g.height - 1, column),
        g.neighbour(g.height - 1, column, 1, 0) == g.at(0, column),
        g.neighbour(row, 0, 0, -1) == g.at(row, g.width - 1),
        g.neighbour(row, g.width - 1, 0, 1) == g.at(row, 0),
        g.at(g.height - 1, column) == Cell::Alive ==> g.live_neighbours(0, column) >= 1,
        g.at(0, column) == Cell::Alive ==> g.live_neighbours(g.height - 1, column) >= 1,
        g.at(row, g.width - 1) == Cell::Alive ==> g.live_neighbours(row, 0) >= 1,
        g.at(row, 0) == Cell::Alive ==> g.live_neighbours(row, g.width - 1) >= 1,
{
    let h = g.height as int;
    let w = g.width as int;
    lemma_mod_add_multiples_vanish(-1, h);
    lemma_mod_add_multiples_vanish(-1, w);
    lemma_small_mod((h - 1) as nat, h as nat);
    lemma_small_mod((w - 1) as nat, w as nat);
    lemma_mod_self_0(h);
    lemma_mod_self_0(w);
    lemma_small_mod(row as nat, h as nat);
    lemma_small_mod(column as nat, w as nat);
}

/// `moved` is `g` carried `d_row` rows down and `d_column` columns right
/// around the torus.
pub open spec fn is_shift(g: Grid, moved: Grid, d_row: int, d_column: int) -> bool {
    &&& moved.width == g.width
    &&& moved.height == g.height
    &&& forall|row: int, column: int|
        0 <= row < g.height && 0 <= column < g.width ==> #[trigger] g.at(row, column) == moved.at(
            (row + d_row) % (g.height as int),
            (column + d_column) % (g.width as int),
        )
}

/// The edges get no special treatment: shifting a grid around the torus and
/// then advancing it gives the same as advancing it and then shifting.
pub proof fn lemma_next_commutes_with_shift(g: Grid, moved: Grid, d_row: int, d_column: int)
    requires
        g.valid(),
        moved.valid(),
        is_shift(g, moved, d_row, d_column),
    ensures
        is_shift(g.next(), moved.next(), d_row, d_column),
{
    let h = g.height as int;
    let w = g.width as int;
    assert forall|row: int, column: int| 0 <= row < h && 0 <= column < w implies #[trigger] g.next().at(
        row,
        column,
    ) == moved.next().at((row + d_row) % h, (column + d_column) % w) by {
        let r = (row + d_row) % h;
        let c = (column + d_column) % w;
        lemma_mod_bound(row + d_row, h);
        lemma_mod_bound(column + d_column, w);
        lemma_index_div_mod(g, row, column);
        lemma_index_in_bounds(g, row, column);
        lemma_index_div_mod(moved, r, c);
        lemma_index_in_bounds(moved, r, c);
        assert(g.at(row, column) == moved.at(r, c));
        lemma_neighbour_shift(g, moved, d_row, d_column, row, column, -1, -1);
        lemma_neighbour_shift(g, moved, d_row, d_column, row, column, -1, 0);
        lemma_neighbour_shift(g, moved, d_row, d_column, row, column, -1, 1);
        lemma_neighbour_shift(g, moved, d_row, d_column, row, column, 0, -1);
        lemma_neighbour_shift(g, moved, d_row, d_column, row, column, 0, 1);
        lemma_neighbour_shift(g, moved, d_row, d_column, row, column, 1, -1);
        lemma_neighbour_shift(g, moved, d_row, d_column, row, column, 1, 0);
        lemma_neighbour_shift(g, moved, d_row, d_column, row, column, 1, 1);
    }
}

/// Under a shift, each neighbour of a cell moves along with the cell.
proof fn lemma_neighbour_shift(
    g: Grid,
    moved: Grid,
    d_row: int,
    d_column: int,
    row: int,
    column: int,
    off_row: int,
    off_column: int,
)
    requires
        g.valid(),
        moved.valid(),
        is_shift(g, moved, d_row, d_column),
        0 <= row < g.height,
        0 <= column < g.width,
    ensures
        moved.neighbour(
            (row + d_row) % (g.height as int),
            (column + d_column) % (g.width as int),
            off_row,
            off_column,
        ) == g.neighbour(row, column, off_row, off_column),
{
    let h = g.height as int;
    let w = g.width as int;
    let r = (row + off_row) % h;
    let c = (column + off_column) % w;
    lemma_mod_bound(row + off_row, h);
    lemma_mod_bound(column + off_column, w);
    assert(g.at(r, c) == moved.at((r + d_row) % h, (c + d_column) % w));
    lemma_add_mod_noop_right(d_row, row + off_row, h);
    lemma_add_mod_noop_right(off_row, row + d_row, h);
    lemma_add_mod_noop_right(d_column, column + off_column, w);
    lemma_add_mod_noop_right(off_column, column + d_column, w);
    assert(d_row + (row + off_row) == off_row + (row + d_row));
    assert(d_column + (column + off_column) == off_column + (column + d_column));
}

/// The flat index of `(row, column)` splits back into `row` and `column`.
pub proof fn lemma_index_div_mod(g: Grid, row: int, column: int)
    requires
        g.valid(),
        0 <= row < g.height,
        0 <= column < g.width,
    ensures
        g.index(row, column) / (g.width as int) == row,
        g.index(row, column) % (g.width as int) == column,
{
    lemma_fundamental_div_mod_converse(g.index(row, column), g.width as int, row, column);
}

/// A position inside the grid has a flat index inside the cell sequence.
pub proof fn lemma_index_in_bounds(g: Grid, row: int, column: int)
    requires
        g.valid(),
        0 <= row < g.height,
        0 <= column < g.width,
    ensures
        0 <= g.index(row, column) < g.width * g.height,
{
    assert(row * g.width <= (g.height - 1) * g.width) by (nonlinear_arith)
        requires row <= g.height - 1, 0 < g.width;
    assert((g.height - 1) * g.width + g.width == g.width * g.height) by (nonlinear_arith);
    assert(0 <= row * g.width) by (nonlinear_arith)
        requires 0 <= row, 0 < g.width;
}

} // verus!
