//! The text format of an initial state: a line with the row count, a line
//! with the column count, then one line per row in which the character `1`
//! marks a live cell.
use crate::grid::{Cell, Grid};
use crate::universe::Universe;
use vstd::arithmetic::div_mod::lemma_fundamental_div_mod_converse;
use vstd::prelude::*;

verus! {

/// Why a text could not be read as an initial state.
#[derive(Copy, Clone, Debug, PartialEq, Eq, Structural)]
pub enum SeedError {
    /// There is no first line.
    MissingRowCount,
    /// The first line is not a positive decimal number that fits in a `u32`.
    InvalidRowCount,
    /// There is no second line.
    MissingColumnCount,
    /// The second line is not a positive decimal number that fits in a `u32`.
    InvalidColumnCount,
    /// The grid would hold more than `u32::MAX` cells.
    TooLarge,
}

pub open spec fn is_digit(c: char) -> bool {
    '0' <= c && c <= '9'
}

/// A non-empty run of decimal digits.
pub open spec fn is_decimal(s: Seq<char>) -> bool {
    s.len() > 0 && forall|i: int| 0 <= i < s.len() ==> is_digit(#[trigger] s[i])
}

/// The number that a run of decimal digits denotes.
pub open spec fn decimal_value(s: Seq<char>) -> int
    decreases s.len(),
{
    if s.len() == 0 {
        0
    } else {
        decimal_value(s.drop_last()) * 10 + (s.last() as int - '0' as int)
    }
}

/// The count that a header line gives, if it is a positive decimal number
/// that fits in a `u32`.
pub open spec fn count_of(s: Seq<char>) -> Option<u32> {
    if is_decimal(s) && 0 < decimal_value(s) <= u32::MAX {
        Some(decimal_value(s) as u32)
    } else {
        None
    }
}

/// The cell at `(row, column)` as the row lines `body` give it: alive where
/// that line has a `1` at that position.
pub open spec fn seed_cell(body: Seq<Seq<char>>, row: int, column: int) -> Cell {
    if 0 <= row < body.len() && 0 <= column < body[row].len() && body[row][column] == '1' {
        Cell::Alive
    } else {
        Cell::Dead
    }
}

/// The grid of `rows` rows and `columns` columns that the row lines `body`
/// describe; lines past the last row and characters past the last column
/// are not read, and missing ones stand for dead cells.
pub open spec fn seed_grid(rows: nat, columns: nat, body: Seq<Seq<char>>) -> Grid {
    Grid {
        width: columns,
        height: rows,
        cells: Seq::new(
            rows * columns,
            |i: int| seed_cell(body, i / (columns as int), i % (columns as int)),
        ),
    }
}

/// What a text, given as its lines, describes.
pub open spec fn seed_outcome(lines: Seq<Seq<char>>) -> Result<Grid, SeedError> {
    if lines.len() < 1 {
        Err(SeedError::MissingRowCount)
    } else if count_of(lines[0]) is None {
        Err(SeedError::InvalidRowCount)
    } else if lines.len() < 2 {
        Err(SeedError::MissingColumnCount)
    } else if count_of(lines[1]) is None {
        Err(SeedError::InvalidColumnCount)
    } else {
        let rows = count_of(lines[0])->0;
        let columns = count_of(lines[1])->0;
        if rows * columns > u32::MAX {
            Err(SeedError::TooLarge)
        } else {
            Ok(seed_grid(rows as nat, columns as nat, lines.skip(2)))
        }
    }
}

pub open spec fn line_views(lines: Seq<String>) -> Seq<Seq<char>> {
    lines.map_values(|l: String| l@)
}

/// The value of a run of digits only grows as digits are added.
proof fn lemma_decimal_prefix(s: Seq<char>, k: int)
    requires
        is_decimal(s),
        0 <= k <= s.len(),
    ensures
        0 <= decimal_value(s.take(k)) <= decimal_value(s),
    decreases s.len() - k,
{
    if k < s.len() {
        lemma_decimal_prefix(s, k + 1);
        assert(s.take(k + 1).drop_last() =~= s.take(k));
        assert(is_digit(s[k]));
    } else {
        assert(s.take(k) =~= s);
        lemma_decimal_nonnegative(s);
    }
}

proof fn lemma_decimal_nonnegative(s: Seq<char>)
    requires
        forall|i: int| 0 <= i < s.len() ==> is_digit(#[trigger] s[i]),
    ensures
        0 <= decimal_value(s),
    decreases s.len(),
{
    if s.len() > 0 {
        assert(is_digit(s[s.len() - 1]));
        lemma_decimal_nonnegative(s.drop_last());
    }
}

/// Reads a header line: a positive decimal number that fits in a `u32`.
pub fn parse_count(s: &str) -> (r: Option<u32>)
    ensures
        r == count_of(s@),
{
    let n = s.unicode_len();
    if n == 0 {
        return None;
    }
    let mut value: u64 = 0;
    let mut k: usize = 0;
    while k < n
        invariant
            n == s@.len(),
            k <= n,
            forall|i: int| 0 <= i < k ==> is_digit(#[trigger] s@[i]),
            value == decimal_value(s@.take(k as int)),
            value <= u32::MAX,
        decreases n - k,
    {
        let c = s.get_char(k);
        if !('0' <= c && c <= '9') {
            return None;
        }
        assert(s@.take(k + 1).drop_last() =~= s@.take(k as int));
        value = value * 10 + (c as u64 - '0' as u64);
        k = k + 1;
        if value > u32::MAX as u64 {
            proof {
                if is_decimal(s@) {
                    lemma_decimal_prefix(s@, k as int);
                }
            }
            return None;
        }
    }
    assert(s@.take(n as int) =~= s@);
    if value == 0 {
        None
    } else {
        Some(value as u32)
    }
}

/// Builds the universe that a text describes, from the text's lines (without
/// their line breaks): see `seed_outcome`.
pub fn universe_from_lines(lines: &[String]) -> (r: Result<Universe, SeedError>)
    ensures
        match r {
            Ok(u) => u.wf() && seed_outcome(line_views(lines@)) == Ok::<Grid, SeedError>(u@),
            Err(e) => seed_outcome(line_views(lines@)) == Err::<Grid, SeedError>(e),
        },
{
    let ghost views = line_views(lines@);
    if lines.len() < 1 {
        return Err(SeedError::MissingRowCount);
    }
    assert(views[0] == lines@[0]@);
    let rows = match parse_count(lines[0].as_str()) {
        Some(n) => n,
        None => return Err(SeedError::InvalidRowCount),
    };
    if lines.len() < 2 {
        return Err(SeedError::MissingColumnCount);
    }
    assert(views[1] == lines@[1]@);
    let columns = match parse_count(lines[1].as_str()) {
        Some(n) => n,
        None => return Err(SeedError::InvalidColumnCount),
    };
    assert(rows as u64 * columns as u64 <= u32::MAX as u64 * u32::MAX as u64) by (nonlinear_arith)
        requires rows <= u32::MAX, columns <= u32::MAX;
    if rows as u64 * columns as u64 > u32::MAX as u64 {
        return Err(SeedError::TooLarge);
    }
    assert(columns * rows == rows * columns) by (nonlinear_arith);
    let ghost body = views.skip(2);
    let ghost target = seed_grid(rows as nat, columns as nat, body);
    let mut universe = Universe::new(columns, rows);
    let mut row: u32 = 0;
    while row < rows
        invariant
            universe.wf(),
            universe@.width == columns,
            universe@.height == rows,
            lines.len() >= 2,
            views == line_views(lines@),
            body == views.skip(2),
            target == seed_grid(rows as nat, columns as nat, body),
            row <= rows,
            forall|i: int|
                0 <= i < universe@.cells.len() ==> #[trigger] universe@.cells[i] == if i < row
                    * columns {
                    target.cells[i]
                } else {
                    Cell::Dead
                },
        decreases rows - row,
    {
        let line_len: usize = if (row as usize) < lines.len() - 2 {
            assert(body[row as int] == lines@[row + 2]@);
            lines[row as usize + 2].as_str().unicode_len()
        } else {
            0
        };
        let mut column: u32 = 0;
        while column < columns
            invariant
                universe.wf(),
                universe@.width == columns,
                universe@.height == rows,
                lines.len() >= 2,
                views == line_views(lines@),
                body == views.skip(2),
                target == seed_grid(rows as nat, columns as nat, body),
                row < rows,
                column <= columns,
                (row as int) < body.len() ==> line_len == body[row as int].len(),
                (row as int) >= body.len() ==> line_len == 0,
                forall|i: int|
                    0 <= i < universe@.cells.len() ==> #[trigger] universe@.cells[i] == if i < row
                        * columns + column {
                        target.cells[i]
                    } else {
                        Cell::Dead
                    },
            decreases columns - column,
        {
            let idx = universe.get_index(row, column);
            proof {
                lemma_fundamental_div_mod_converse(idx as int, columns as int, row as int, column as int);
            }
            if (column as usize) < line_len && (row as usize) < lines.len() - 2 && lines[row as usize + 2].as_str().get_char(
                column as usize,
            ) == '1' {
                universe.mark(row, column);
            }
            column = column + 1;
        }
        assert(row * columns + columns == (row + 1) * columns) by (nonlinear_arith);
        row = row + 1;
    }
    assert(rows * columns == columns * rows) by (nonlinear_arith);
    assert(universe@ =~= target);
    Ok(universe)
}

} // verus!
