//! The executable universe, checked against the model of `grid`.
use crate::grid::{
    lemma_index_div_mod, lemma_index_in_bounds, listed, next_state, Cell, Grid,
};
use vstd::arithmetic::div_mod::lemma_mod_add_multiples_vanish;
use vstd::prelude::*;

verus! {

/// A Game of Life universe: a grid whose edges wrap around.
pub struct Universe {
    width: u32,
    height: u32,
    cells: Vec<Cell>,
}

impl View for Universe {
    type V = Grid;

    closed spec fn view(&self) -> Grid {
        Grid { width: self.width as nat, height: self.height as nat, cells: self.cells@ }
    }
}

impl Universe {
    /// The universe's fields form a valid grid.
    pub open spec fn wf(&self) -> bool {
        self@.valid()
    }

    /// A universe of `width` columns and `height` rows, every cell dead. The
    /// number of cells must fit in a `u32`.
    pub fn new(width: u32, height: u32) -> (r: Universe)
        requires
            0 < width,
            0 < height,
            width * height <= u32::MAX,
        ensures
            r.wf(),
            r@.width == width,
            r@.height == height,
            r@.cells == Seq::new((width * height) as nat, |i: int| Cell::Dead),
    {
        let cells = vec![Cell::Dead; (width * height) as usize];
        let r = Universe { width, height, cells };
        assert(r@.cells =~= Seq::new((width * height) as nat, |i: int| Cell::Dead));
        r
    }

    /// Makes alive the cell at `(row, column)` for each pair of `cells`. A
    /// pair outside the grid (`row >= height` or `column >= width`) is
    /// ignored, as `row_as_string` answers `None` for a row outside it; no
    /// other cell changes.
    pub fn set_cells(&mut self, cells: &[(u32, u32)])
        requires
            old(self).wf(),
        ensures
            final(self).wf(),
            final(self)@ == old(self)@.seeded(cells@),
    {
        let ghost g = self@;
        assert(self@ =~= g.seeded(cells@.take(0)));
        let mut k: usize = 0;
        while k < cells.len()
            invariant
                g.valid(),
                self@ == g.seeded(cells@.take(k as int)),
                k <= cells@.len(),
            decreases cells@.len() - k,
        {
            let (row, column) = cells[k];
            let ghost before = cells@.take(k as int);
            let ghost after = cells@.take(k + 1);
            assert(after =~= before.push((row, column)));
            if row < self.height && column < self.width {
                let idx = self.get_index(row, column);
                self.cells.set(idx, Cell::Alive);
            }
            proof {
                assert forall|i: int| 0 <= i < g.cells.len() implies
                    #[trigger] g.seeded(after).cells[i] == self@.cells[i] by {
                    lemma_listed_push(before, (row, column), g.width, g.height, i);
                }
            }
            assert(self@ =~= g.seeded(after));
            k = k + 1;
        }
        assert(cells@.take(cells@.len() as int) =~= cells@);
    }

    /// Advances the universe by one generation. Every new cell is computed
    /// from the old generation; the grid is replaced only once all are known.
    pub fn tick(&mut self)
        requires
            old(self).wf(),
        ensures
            final(self).wf(),
            final(self)@ == old(self)@.next(),
    {
        let ghost g = self@;
        let mut next = self.cells.clone();
        let mut row: u32 = 0;
        while row < self.height
            invariant
                self@ == g,
                g.valid(),
                row <= g.height,
                next@.len() == g.cells.len(),
                forall|i: int|
                    0 <= i < row * g.width ==> #[trigger] next@[i] == g.next().cells[i],
            decreases g.height - row,
        {
            let mut column: u32 = 0;
            while column < self.width
                invariant
                    self@ == g,
                    g.valid(),
                    row < g.height,
                    column <= g.width,
                    next@.len() == g.cells.len(),
                    forall|i: int|
                        0 <= i < row * g.width + column ==> #[trigger] next@[i] == g.next().cells[i],
                decreases g.width - column,
            {
                let idx = self.get_index(row, column);
                let live = self.live_neighbour_count(row, column);
                proof {
                    lemma_index_div_mod(g, row as int, column as int);
                }
                next.set(idx, next_cell(self.cells[idx], live));
                column = column + 1;
            }
            assert(row * g.width + g.width == (row + 1) * g.width) by (nonlinear_arith);
            row = row + 1;
        }
        assert(g.height * g.width == g.width * g.height) by (nonlinear_arith);
        assert(next@ =~= g.next().cells);
        self.cells = next;
    }

    /// The number of live cells among the eight wrapped neighbours of
    /// `(row, column)`. On a grid one row high (or one column wide) several
    /// offsets land on the same cell, which is then counted once per offset.
    pub fn live_neighbour_count(&self, row: u32, column: u32) -> (r: u8)
        requires
            self.wf(),
            row < self@.height,
            column < self@.width,
        ensures
            r == self@.live_neighbours(row as int, column as int),
    {
        let mut count: u8 = 0;
        let mut d_row: u32 = 0;
        while d_row < 3
            invariant
                self.wf(),
                row < self@.height,
                column < self@.width,
                d_row <= 3,
                count == self@.counted(row as int, column as int, 3 * d_row),
                count <= 3 * d_row,
            decreases 3 - d_row,
        {
            let mut d_column: u32 = 0;
            while d_column < 3
                invariant
                    self.wf(),
                    row < self@.height,
                    column < self@.width,
                    d_row < 3,
                    d_column <= 3,
                    count == self@.counted(row as int, column as int, 3 * d_row + d_column),
                    count <= 3 * d_row + d_column,
                decreases 3 - d_column,
            {
                assert((3 * d_row + d_column) / 3 == d_row && (3 * d_row + d_column) % 3 == d_column);
                if !(d_row == 1 && d_column == 1) {
                    let cell = self.neighbour_of(row, column, d_row, d_column);
                    if cell == Cell::Alive {
                        count = count + 1;
                    }
                }
                d_column = d_column + 1;
            }
            d_row = d_row + 1;
        }
        assert(self@.counted(row as int, column as int, 9) == self@.live_neighbours(row as int, column as int)) by {
            reveal_with_fuel(Grid::counted, 10);
        }
        count
    }

    /// The cell at offset `(d_row - 1, d_column - 1)` from `(row, column)`,
    /// wrapped around the edges.
    fn neighbour_of(&self, row: u32, column: u32, d_row: u32, d_column: u32) -> (r: Cell)
        requires
            self.wf(),
            row < self@.height,
            column < self@.width,
            d_row < 3,
            d_column < 3,
        ensures
            r == self@.neighbour(row as int, column as int, d_row - 1, d_column - 1),
    {
        let height = self.height as u64;
        let width = self.width as u64;
        let neighbour_row = ((row as u64 + height + d_row as u64 - 1) % height) as u32;
        let neighbour_column = ((column as u64 + width + d_column as u64 - 1) % width) as u32;
        proof {
            lemma_mod_add_multiples_vanish(row + d_row - 1, height as int);
            lemma_mod_add_multiples_vanish(column + d_column - 1, width as int);
        }
        let idx = self.get_index(neighbour_row, neighbour_column);
        self.cells[idx]
    }

    /// The printed form of row `row`, or `None` where there is no such row.
    pub fn row_as_string(&self, row: u32) -> (r: Option<String>)
        requires
            self.wf(),
        ensures
            row >= self@.height ==> r.is_none(),
            row < self@.height ==> r.is_some() && r.unwrap()@ == self@.row_text(row as int),
            row < self@.height ==> r.unwrap()@.len() == self@.width,
    {
        if row < self.height {
            let mut row_string = String::new();
            let mut column: u32 = 0;
            while column < self.width
                invariant
                    self.wf(),
                    row < self@.height,
                    column <= self@.width,
                    row_string@ == self@.row_text(row as int).take(column as int),
                decreases self@.width - column,
            {
                let idx = self.get_index(row, column);
                if self.cells[idx] == Cell::Dead {
                    row_string.append("\u{25fb}");
                } else {
                    row_string.append("\u{25fc}");
                }
                proof {
                    reveal_strlit("\u{25fb}");
                    reveal_strlit("\u{25fc}");
                }
                assert(row_string@ =~= self@.row_text(row as int).take(column + 1));
                column = column + 1;
            }
            assert(row_string@ =~= self@.row_text(row as int));
            Some(row_string)
        } else {
            None
        }
    }

    /// The printed form of the whole universe: every row followed by a line
    /// break, row 0 first.
    pub fn render(&self) -> (r: String)
        requires
            self.wf(),
        ensures
            r@ == self@.text(),
    {
        let mut text = String::new();
        let mut row: u32 = 0;
        while row < self.height
            invariant
                self.wf(),
                row <= self@.height,
                text@ == self@.rows_text(row as int),
            decreases self@.height - row,
        {
            let line = self.row_as_string(row).unwrap();
            text.append(line.as_str());
            text.append("\n");
            proof {
                reveal_strlit("\n");
            }
            row = row + 1;
        }
        text
    }

    /// Makes the cell at `(row, column)` alive.
    pub fn mark(&mut self, row: u32, column: u32)
        requires
            old(self).wf(),
            row < old(self)@.height,
            column < old(self)@.width,
        ensures
            final(self).wf(),
            final(self)@ == (Grid {
                cells: old(self)@.cells.update(old(self)@.index(row as int, column as int), Cell::Alive),
                ..old(self)@
            }),
    {
        let idx = self.get_index(row, column);
        self.cells.set(idx, Cell::Alive);
    }

    /// The cells in row-major order.
    pub fn cells(&self) -> (r: &[Cell])
        ensures
            r@ == self@.cells,
    {
        self.cells.as_slice()
    }

    /// Flat position of the cell at `(row, column)`.
    pub fn get_index(&self, row: u32, column: u32) -> (r: usize)
        requires
            self.wf(),
            row < self@.height,
            column < self@.width,
        ensures
            r == self@.index(row as int, column as int),
            r < self@.cells.len(),
    {
        proof {
            lemma_index_in_bounds(self@, row as int, column as int);
        }
        (row * self.width + column) as usize
    }
}

/// Applies the rule to one cell.
pub fn next_cell(cell: Cell, live: u8) -> (r: Cell)
    ensures
        r == next_state(cell, live as int),
{
    match (cell, live) {
        (Cell::Alive, 2) | (Cell::Alive, 3) => Cell::Alive,
        (Cell::Alive, _) => Cell::Dead,
        (Cell::Dead, 3) => Cell::Alive,
        (other, _) => other,
    }
}

/// Listing one more pair adds exactly that pair's index, where the pair lies
/// inside the grid.
proof fn lemma_listed_push(coords: Seq<(u32, u32)>, p: (u32, u32), width: nat, height: nat, i: int)
    ensures
        listed(coords.push(p), width, height, i) == (listed(coords, width, height, i) || (p.0
            < height && p.1 < width && p.0 * width + p.1 == i)),
{
    let longer = coords.push(p);
    if listed(longer, width, height, i) {
        let j = choose|j: int|
            0 <= j < longer.len() && longer[j].0 < height && longer[j].1 < width && longer[j].0
                * width + longer[j].1 == i;
        if j < coords.len() {
            assert(coords[j] == longer[j]);
        }
    }
    if listed(coords, width, height, i) {
        let j = choose|j: int|
            0 <= j < coords.len() && coords[j].0 < height && coords[j].1 < width && coords[j].0
                * width + coords[j].1 == i;
        assert(longer[j] == coords[j]);
    }
    if p.0 < height && p.1 < width && p.0 * width + p.1 == i {
        assert(longer[coords.len() as int] == p);
    }
}

} // verus!
