use minesweeper::board::{Board, Cell, CellCategory, CellState, Dim, Error};

fn visible_empty() -> Cell {
    Cell { state: CellState::Visible, category: CellCategory::Empty(None), scratch: false }
}

fn hidden_empty() -> Cell {
    Cell { state: CellState::Hidden, category: CellCategory::Empty(None), scratch: false }
}

fn hidden_mine() -> Cell {
    Cell { state: CellState::Hidden, category: CellCategory::Mine, scratch: false }
}

#[test]
fn board_surroundings_iter() {
    let board = Board::new_seeded(Dim::Square(20), 20, [7u8; 32]).expect("a board");
    let s = board.surroundings_of((10, 10));
    assert_eq!(s.len(), 8);
}

#[test]
fn surroundings_clip_at_edges() {
    let board = Board::new_fixed(Dim::Square(3), vec![]).expect("a board");
    let mut corner = board.surroundings_of((0, 0));
    corner.sort();
    assert_eq!(corner, vec![(0, 1), (1, 0), (1, 1)]);
    let edge = board.surroundings_of((1, 0));
    assert_eq!(edge.len(), 5);
    let centre = board.surroundings_of((1, 1));
    assert_eq!(centre.len(), 8);
}

#[test]
fn dims_and_bounds() {
    let board = Board::new_fixed(Dim::Rect(4, 2), vec![]).expect("a board");
    assert_eq!(board.w(), 4);
    assert_eq!(board.h(), 2);
    assert!(board.is_loc((3, 1)));
    assert!(!board.is_loc((4, 0)));
    assert!(!board.is_loc((0, 2)));
}

#[test]
fn from_cells_numbers_the_ground() {
    let grid = vec![
        vec![hidden_empty(), hidden_empty(), hidden_empty()],
        vec![hidden_empty(), hidden_mine(), hidden_empty()],
        vec![hidden_empty(), hidden_empty(), hidden_empty()],
    ];
    let b = Board::from_cells(grid).expect("a rectangular grid");
    // Every ground cell touches the single central mine.
    assert_eq!(b.cells[0][0].category, CellCategory::Empty(Some(1)));
    assert_eq!(b.cells[2][1].category, CellCategory::Empty(Some(1)));
    assert_eq!(b.cells[1][1].category, CellCategory::Mine);
}

#[test]
fn from_save_rejects_bad_bytes_and_ragged_rows() {
    assert!(Board::from_save(b"  \n q\n").is_err());
    assert!(Board::from_save(b"  \n   \n").is_err());
    let b = Board::from_save(b" H\nx \n").expect("a clean save");
    assert_eq!(b.w(), 2);
    assert_eq!(b.h(), 2);
}

#[test]
fn mark_toggles_only_hidden_cells() {
    let grid = vec![vec![visible_empty(), hidden_empty(), hidden_mine()]];
    let mut b = Board::from_cells(grid).expect("a rectangular grid");
    assert_eq!(b.mark((5, 0)), Err(Error::OOB));
    b.mark((1, 0)).expect("in range");
    assert_eq!(b.cells[0][1].state, CellState::Marked);
    b.mark((1, 0)).expect("in range");
    assert_eq!(b.cells[0][1].state, CellState::Hidden);
    b.mark((0, 0)).expect("in range");
    assert_eq!(b.cells[0][0].state, CellState::Visible);
}

#[test]
fn dig_errors() {
    let grid = vec![vec![hidden_empty(), hidden_empty(), hidden_mine()]];
    let mut b = Board::from_cells(grid).expect("a rectangular grid");
    assert_eq!(b.dig((9, 9)), Err(Error::OOB));
    b.mark((1, 0)).expect("in range");
    assert_eq!(b.dig((1, 0)), Err(Error::Marked));
    assert_eq!(b.dig((2, 0)), Err(Error::Dead));
}

#[test]
fn dig_flood_reveals_the_open_ground() {
    // One mine in a corner of a 4 by 4 board; digging the far corner floods
    // everything that shows no number's worth of risk.
    let b0 = Board::new_fixed(Dim::Square(4), vec![(0, 0)]).expect("a board");
    let mut b = b0;
    b.dig((3, 3)).expect("safe dig");
    // Every cell away from the mine's corner is revealed.
    assert_eq!(b.cells[3][3].state, CellState::Visible);
    assert_eq!(b.cells[0][2].state, CellState::Visible);
    assert_eq!(b.cells[2][0].state, CellState::Visible);
    // The numbered fence next to the mine is revealed too.
    assert_eq!(b.cells[1][1].state, CellState::Visible);
    assert_eq!(b.cells[1][1].category, CellCategory::Empty(Some(1)));
    // The mine stays hidden.
    assert_eq!(b.cells[0][0].state, CellState::Hidden);
    assert!(b.is_all_but_mines_revealed());
}

#[test]
fn dig_single_number_reveals_one_cell() {
    let grid = vec![vec![hidden_empty(), hidden_mine()]];
    let mut b = Board::from_cells(grid).expect("a rectangular grid");
    b.dig((0, 0)).expect("safe dig");
    assert_eq!(b.cells[0][0].state, CellState::Visible);
    assert_eq!(b.cells[0][1].state, CellState::Hidden);
    assert!(b.is_all_but_mines_revealed());
}

#[test]
fn chord_reveals_around_a_satisfied_number() {
    // Mine at (0,0), its neighbour (1,1) shows 1.  Marking the mine and
    // digging the revealed 1 chords: the rest of the row opens.
    let b0 = Board::new_fixed(Dim::Square(3), vec![(0, 0)]).expect("a board");
    let mut b = b0;
    b.dig((1, 1)).expect("safe dig");
    b.mark((0, 0)).expect("in range");
    b.dig((1, 1)).expect("chord with a correct mark");
    assert_eq!(b.cells[0][1].state, CellState::Visible);
    assert_eq!(b.cells[1][0].state, CellState::Visible);
    assert_eq!(b.cells[2][2].state, CellState::Visible);
    assert_eq!(b.cells[0][0].state, CellState::Marked);
}

#[test]
fn chord_on_a_wrong_mark_is_fatal() {
    // Mine at (0,0); the player marks (1,0) instead and chords on the 1.
    let b0 = Board::new_fixed(Dim::Square(3), vec![(0, 0)]).expect("a board");
    let mut b = b0;
    b.dig((1, 1)).expect("safe dig");
    b.mark((1, 0)).expect("in range");
    assert_eq!(b.dig((1, 1)), Err(Error::Dead));
}

#[test]
fn display_draws_states_and_numbers() {
    let grid = vec![vec![visible_empty(), hidden_mine(), hidden_empty()]];
    let mut b = Board::from_cells(grid).expect("a rectangular grid");
    b.mark((1, 0)).expect("in range");
    let shown = b.display((3, 1), (0, 0)).expect("a snippet");
    assert_eq!(shown.len(), 1);
    assert_eq!(shown[0][0], '1');
    assert_eq!(shown[0][1], 'F');
    assert_eq!(shown[0][2], '\u{25A1}');
}

#[test]
fn seeded_boards_are_reproducible() {
    let a = Board::new_seeded(Dim::Square(6), 5, [3u8; 32]).expect("a board");
    let b = Board::new_seeded(Dim::Square(6), 5, [3u8; 32]).expect("a board");
    let c = Board::new_seeded(Dim::Square(6), 5, [4u8; 32]).expect("a board");
    let mut da = a;
    let mut db = b;
    let mut dc = c;
    // Reveal everything mine-free by digging every cell that is not a mine.
    let sa = full_reveal(&mut da);
    let sb = full_reveal(&mut db);
    let sc = full_reveal(&mut dc);
    assert_eq!(sa, sb);
    assert_ne!(sa, sc);
}

fn full_reveal(b: &mut Board) -> Vec<Vec<char>> {
    for y in 0..b.h() {
        for x in 0..b.w() {
            let _ = b.dig((x, y));
        }
    }
    b.display((b.w(), b.h()), (0, 0)).expect("a snippet")
}

#[test]
fn presets_build() {
    assert!(Board::beginner().expect("entropy").w() == 9);
    assert!(Board::intermediate().expect("entropy").h() == 16);
    let adv = Board::advanced().expect("entropy");
    assert_eq!((adv.w(), adv.h()), (30, 16));
}

#[test]
fn save_bytes_map_to_cells_by_position() {
    // The byte at row * (width + 1) + col becomes the cell at (col, row).
    let b = Board::from_save(b" x\nH \n").expect("a clean save");
    assert_eq!(b.cells[0][0].state, CellState::Visible);
    assert_eq!(b.cells[0][1].category, CellCategory::Mine);
    assert_eq!(b.cells[0][1].state, CellState::Hidden);
    assert_eq!(b.cells[1][0].state, CellState::Hidden);
    // Every ground cell touches the mine, so each picks up a count of one.
    assert_eq!(b.cells[1][0].category, CellCategory::Empty(Some(1)));
    assert_eq!(b.cells[0][0].category, CellCategory::Empty(Some(1)));
    assert_eq!(b.cells[1][1].state, CellState::Visible);
    assert_eq!(b.cells[1][1].category, CellCategory::Empty(Some(1)));
}
