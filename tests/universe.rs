use game_of_life::grid::Cell;
use game_of_life::universe::{next_cell, Universe};

fn alive_at(u: &Universe, width: usize, coords: &[(usize, usize)]) -> Vec<Cell> {
    let mut expected = vec![Cell::Dead; u.cells().len()];
    for &(row, column) in coords {
        expected[row * width + column] = Cell::Alive;
    }
    expected
}

#[test]
fn get_index() {
    let sut = Universe::new(4, 4);

    assert_eq!(sut.get_index(1, 2), 6);
}

#[test]
fn set_cells() {
    let mut sut = Universe::new(2, 1);
    sut.set_cells(&[(0, 1)]);
    assert_eq!(sut.cells(), vec![Cell::Dead, Cell::Alive]);
}

#[test]
fn tick() {
    let mut sut = Universe::new(6, 6);
    sut.set_cells(&[(1, 2), (2, 3), (3, 1), (3, 2), (3, 3)]);
    let mut expected_universe = Universe::new(6, 6);
    expected_universe.set_cells(&[(2, 1), (2, 3), (3, 2), (3, 3), (4, 2)]);
    sut.tick();
    assert_eq!(sut.cells(), expected_universe.cells());
}

#[test]
fn new_universe_is_all_dead() {
    let sut = Universe::new(3, 5);
    assert_eq!(sut.cells().len(), 15);
    assert!(sut.cells().iter().all(|&c| c == Cell::Dead));
}

#[test]
fn get_index_is_row_major() {
    let sut = Universe::new(5, 3);
    assert_eq!(sut.get_index(0, 0), 0);
    assert_eq!(sut.get_index(0, 4), 4);
    assert_eq!(sut.get_index(2, 3), 13);
}

#[test]
fn set_cells_ignores_column_past_the_edge_of_one_column_grid() {
    let mut sut = Universe::new(1, 2);
    sut.set_cells(&[(0, 1)]);
    assert_eq!(sut.cells(), vec![Cell::Dead, Cell::Dead]);
}

#[test]
fn set_cells_ignores_index_past_the_grid() {
    let mut sut = Universe::new(2, 2);
    sut.set_cells(&[(5, 5), (2, 0), (4_000_000_000, 4_000_000_000)]);
    assert_eq!(sut.cells(), vec![Cell::Dead; 4]);
}

#[test]
fn set_cells_ignores_column_past_the_edge() {
    let mut sut = Universe::new(2, 2);
    sut.set_cells(&[(0, 2), (1, 7)]);
    assert_eq!(sut.cells(), vec![Cell::Dead; 4]);
    sut.set_cells(&[(0, 2), (1, 1)]);
    assert_eq!(sut.cells(), vec![Cell::Dead, Cell::Dead, Cell::Dead, Cell::Alive]);
}

#[test]
fn set_cells_leaves_live_cells_alive() {
    let mut sut = Universe::new(3, 1);
    sut.set_cells(&[(0, 0)]);
    sut.set_cells(&[(0, 2), (0, 2)]);
    assert_eq!(sut.cells(), vec![Cell::Alive, Cell::Dead, Cell::Alive]);
}

#[test]
fn tick_is_deterministic() {
    let mut a = Universe::new(7, 5);
    let mut b = Universe::new(7, 5);
    let seed = [(0, 0), (0, 1), (1, 1), (2, 5), (3, 6), (4, 6), (4, 0)];
    a.set_cells(&seed);
    b.set_cells(&seed);
    a.tick();
    b.tick();
    assert_eq!(a.cells(), b.cells());
    a.tick();
    b.tick();
    assert_eq!(a.cells(), b.cells());
}

#[test]
fn blinker_wraps_across_top_and_bottom() {
    let mut sut = Universe::new(5, 5);
    sut.set_cells(&[(4, 2), (0, 2), (1, 2)]);
    sut.tick();
    let expected = alive_at(&sut, 5, &[(0, 1), (0, 2), (0, 3)]);
    assert_eq!(sut.cells(), expected);
    sut.tick();
    let expected = alive_at(&sut, 5, &[(4, 2), (0, 2), (1, 2)]);
    assert_eq!(sut.cells(), expected);
}

#[test]
fn blinker_wraps_across_left_and_right() {
    let mut sut = Universe::new(5, 5);
    sut.set_cells(&[(2, 4), (2, 0), (2, 1)]);
    sut.tick();
    let expected = alive_at(&sut, 5, &[(1, 0), (2, 0), (3, 0)]);
    assert_eq!(sut.cells(), expected);
}

#[test]
fn neighbour_count_wraps_rows() {
    let mut sut = Universe::new(4, 4);
    sut.set_cells(&[(3, 1)]);
    assert_eq!(sut.live_neighbour_count(0, 1), 1);
    assert_eq!(sut.live_neighbour_count(0, 0), 1);
    assert_eq!(sut.live_neighbour_count(0, 3), 0);
    assert_eq!(sut.live_neighbour_count(3, 1), 0);
    let mut top = Universe::new(4, 4);
    top.set_cells(&[(0, 2)]);
    assert_eq!(top.live_neighbour_count(3, 2), 1);
}

#[test]
fn neighbour_count_of_full_grid() {
    let mut sut = Universe::new(3, 3);
    sut.set_cells(&[(0, 0), (0, 1), (0, 2), (1, 0), (1, 1), (1, 2), (2, 0), (2, 1), (2, 2)]);
    assert_eq!(sut.live_neighbour_count(1, 1), 8);
    assert_eq!(sut.live_neighbour_count(0, 0), 8);
}

#[test]
fn neighbour_count_on_single_cell_counts_every_offset() {
    let mut sut = Universe::new(1, 1);
    sut.set_cells(&[(0, 0)]);
    assert_eq!(sut.live_neighbour_count(0, 0), 8);
    sut.tick();
    assert_eq!(sut.cells(), vec![Cell::Dead]);
}

#[test]
fn block_is_still() {
    let mut sut = Universe::new(4, 4);
    sut.set_cells(&[(1, 1), (1, 2), (2, 1), (2, 2)]);
    let before = sut.cells().to_vec();
    sut.tick();
    assert_eq!(sut.cells(), before);
}

#[test]
fn lone_cell_dies_and_crowded_cell_dies() {
    let mut lone = Universe::new(5, 5);
    lone.set_cells(&[(2, 2)]);
    lone.tick();
    assert_eq!(lone.cells(), vec![Cell::Dead; 25]);

    let mut plus = Universe::new(5, 5);
    plus.set_cells(&[(2, 2), (1, 2), (3, 2), (2, 1), (2, 3)]);
    plus.tick();
    assert_eq!(plus.cells()[plus.get_index(2, 2)], Cell::Dead);
}

#[test]
fn rule_for_each_case() {
    assert_eq!(next_cell(Cell::Alive, 0), Cell::Dead);
    assert_eq!(next_cell(Cell::Alive, 1), Cell::Dead);
    assert_eq!(next_cell(Cell::Alive, 2), Cell::Alive);
    assert_eq!(next_cell(Cell::Alive, 3), Cell::Alive);
    assert_eq!(next_cell(Cell::Alive, 4), Cell::Dead);
    assert_eq!(next_cell(Cell::Alive, 8), Cell::Dead);
    assert_eq!(next_cell(Cell::Dead, 2), Cell::Dead);
    assert_eq!(next_cell(Cell::Dead, 3), Cell::Alive);
    assert_eq!(next_cell(Cell::Dead, 4), Cell::Dead);
}

#[test]
fn row_as_string_past_the_last_row() {
    let sut = Universe::new(3, 2);
    assert_eq!(sut.row_as_string(2), None);
    assert_eq!(sut.row_as_string(u32::MAX), None);
}

#[test]
fn row_as_string_has_one_symbol_per_column() {
    let mut sut = Universe::new(3, 2);
    sut.set_cells(&[(1, 1)]);
    let first = sut.row_as_string(0).unwrap();
    let second = sut.row_as_string(1).unwrap();
    assert_eq!(first.chars().count(), 3);
    assert_eq!(first, "\u{25fb}\u{25fb}\u{25fb}");
    assert_eq!(second, "\u{25fb}\u{25fc}\u{25fb}");
}

#[test]
fn render_joins_rows_with_line_breaks() {
    let mut sut = Universe::new(2, 2);
    sut.set_cells(&[(0, 0)]);
    assert_eq!(sut.render(), "\u{25fc}\u{25fb}\n\u{25fb}\u{25fb}\n");
}

#[test]
fn tick_commutes_with_shift_across_edges() {
    let glider = [(1u32, 2u32), (2, 3), (3, 1), (3, 2), (3, 3)];
    let shifted: Vec<(u32, u32)> = glider.iter().map(|&(r, c)| ((r + 3) % 6, (c + 4) % 6)).collect();
    let mut plain = Universe::new(6, 6);
    plain.set_cells(&glider);
    let mut moved = Universe::new(6, 6);
    moved.set_cells(&shifted);
    plain.tick();
    moved.tick();
    for r in 0..6usize {
        for c in 0..6usize {
            assert_eq!(plain.cells()[r * 6 + c], moved.cells()[((r + 3) % 6) * 6 + (c + 4) % 6]);
        }
    }
}
