use minesweeper::board::{Board, Cell, CellCategory, CellState};
use minesweeper::solver::{KnownCells, SolveError, Solver};

fn visible_empty() -> Cell {
    Cell { state: CellState::Visible, category: CellCategory::Empty(None), scratch: false }
}

fn hidden_empty() -> Cell {
    Cell { state: CellState::Hidden, category: CellCategory::Empty(None), scratch: false }
}

fn marked_empty() -> Cell {
    Cell { state: CellState::Marked, category: CellCategory::Empty(None), scratch: false }
}

fn hidden_mine() -> Cell {
    Cell { state: CellState::Hidden, category: CellCategory::Mine, scratch: false }
}

/// The three-by-three board with one mine in its corner, a revealed one next
/// to it, and everything else revealed as open ground.
fn scenario_board() -> Board {
    let grid = vec![
        vec![visible_empty(), visible_empty(), visible_empty()],
        vec![visible_empty(), visible_empty(), hidden_empty()],
        vec![visible_empty(), hidden_empty(), hidden_mine()],
    ];
    Board::from_cells(grid).expect("a rectangular grid")
}

fn solve(b: &Board) -> Result<Option<KnownCells>, SolveError> {
    let mut solver = Solver::new(b);
    solver.calculate_known_cells()
}

#[test]
fn solver_test() {
}

#[test]
fn scenario_single_corner_mine() {
    let b = scenario_board();
    let kc = solve(&b).expect("consistent board").expect("deductions exist");
    assert_eq!(kc.mines.len(), 1);
    assert!(kc.mines.contains(&(2, 2)));
    assert_eq!(kc.empty.len(), 2);
    assert!(kc.empty.contains(&(2, 1)));
    assert!(kc.empty.contains(&(1, 2)));
}

#[test]
fn scenario_shared_cell_is_mine() {
    // Bottom row hidden, a mine at (2,1).  The revealed zero at (0,0) clears
    // the left cells; the remaining one-regions then force the shared cell.
    let grid = vec![
        vec![visible_empty(), visible_empty(), visible_empty(), visible_empty()],
        vec![hidden_empty(), hidden_empty(), hidden_mine(), hidden_empty()],
    ];
    let b = Board::from_cells(grid).expect("a rectangular grid");
    let kc = solve(&b).expect("consistent board").expect("deductions exist");
    assert!(kc.mines.contains(&(2, 1)));
    assert_eq!(kc.mines.len(), 1);
    assert!(kc.empty.contains(&(0, 1)));
    assert!(kc.empty.contains(&(1, 1)));
    assert!(kc.empty.contains(&(3, 1)));
}

#[test]
fn scenario_resolved_region_is_no_error() {
    // Fully revealed board without mines: every region is already resolved
    // with no required mines and no hidden cells; nothing is reported.
    let grid = vec![
        vec![visible_empty(), visible_empty()],
        vec![visible_empty(), visible_empty()],
    ];
    let b = Board::from_cells(grid).expect("a rectangular grid");
    let r = solve(&b).expect("consistent board");
    assert!(r.is_none());
}

#[test]
fn scenario_overmarked_number_is_flag_overcount() {
    let grid = vec![
        vec![visible_empty(), hidden_empty()],
        vec![hidden_empty(), hidden_mine()],
    ];
    let mut b = Board::from_cells(grid).expect("a rectangular grid");
    // (0,0) shows 1; two marks around it contradict the number.
    b.mark((1, 0)).expect("in range");
    b.mark((0, 1)).expect("in range");
    assert_eq!(solve(&b), Err(SolveError::FlagOvercount));
}

#[test]
fn contradictory_marks_empty_feasibility() {
    // The lone mine sits at (1,1); a mark on the safe cell (1,0) makes the
    // count-based reasoning force (1,1) safe for one region and a mine for
    // another: no split survives.
    let grid = vec![
        vec![visible_empty(), marked_empty(), visible_empty()],
        vec![visible_empty(), hidden_mine(), visible_empty()],
        vec![visible_empty(), visible_empty(), visible_empty()],
    ];
    let b = Board::from_cells(grid).expect("a rectangular grid");
    assert_eq!(solve(&b), Err(SolveError::EmptyFeasibilitySet));
}

#[test]
fn safe_and_mine_sets_never_overlap() {
    let b = scenario_board();
    let kc = solve(&b).expect("consistent").expect("deductions exist");
    assert_eq!(kc.empty.intersection(&kc.mines).count(), 0);
}

#[test]
fn identical_calls_identical_conclusions() {
    let b = scenario_board();
    let kc1 = solve(&b).expect("consistent").expect("deductions exist");
    let kc2 = solve(&b).expect("consistent").expect("deductions exist");
    assert!(kc1.empty == kc2.empty);
    assert!(kc1.mines == kc2.mines);
    // A reused solver reaches the same conclusions as a fresh one.
    let mut solver = Solver::new(&b);
    let ka = solver.calculate_known_cells().expect("consistent").expect("deductions");
    let kb = solver.calculate_known_cells().expect("consistent").expect("deductions");
    assert!(ka.empty == kb.empty);
    assert!(ka.mines == kb.mines);
    assert!(ka.mines == kc1.mines);
}

#[test]
fn every_unmarked_mine_is_found_or_remains() {
    // The scenario board has one mine and no marks; the solve resolves the
    // board fully, so the found mines account for the whole difference.
    let b = scenario_board();
    let kc = solve(&b).expect("consistent").expect("deductions exist");
    assert_eq!(kc.mines.len(), 1);
}

#[test]
fn endgame_all_hidden_cells_are_mines() {
    // Two hidden cells, two mines: only the whole-board region can tell, and
    // it forces both.
    let b = Board::new_fixed(minesweeper::board::Dim::Rect(2, 1), vec![(0, 0), (1, 0)])
        .expect("fits");
    let kc = solve(&b).expect("consistent").expect("deductions exist");
    assert_eq!(kc.mines.len(), 2);
    assert!(kc.mines.contains(&(0, 0)));
    assert!(kc.mines.contains(&(1, 0)));
    assert_eq!(kc.empty.len(), 0);
}

#[test]
fn no_mines_means_all_hidden_cells_safe() {
    let b = Board::new_fixed(minesweeper::board::Dim::Square(2), vec![]).expect("fits");
    let kc = solve(&b).expect("consistent").expect("deductions exist");
    assert_eq!(kc.empty.len(), 4);
    assert_eq!(kc.mines.len(), 0);
}

#[test]
fn probe_sees_the_deducible_move() {
    let b = scenario_board();
    assert_eq!(b.launch_probe(), Err(minesweeper::board::Error::Dead));
    assert_eq!(b.has_deducible_move(), Ok(true));
}

#[test]
fn probe_finds_nothing_without_information() {
    // One mine somewhere under four hidden cells: no certain conclusion.
    let b = Board::new_fixed(minesweeper::board::Dim::Square(2), vec![(0, 0)]).expect("fits");
    assert_eq!(b.launch_probe(), Ok(()));
    assert_eq!(b.has_deducible_move(), Ok(false));
}

#[test]
fn global_region_link_completes_the_endgame() {
    // A row of four: a mine under each end, the revealed "1" watching only
    // the left pair.  Only linking the whole-board region (two mines in
    // total) against that pair can place the right-hand mine.
    let grid = vec![
        vec![hidden_mine(), visible_empty(), hidden_empty(), hidden_mine()],
    ];
    let b = Board::from_cells(grid).expect("a rectangular grid");
    let kc = solve(&b).expect("consistent board").expect("deductions exist");
    assert_eq!(kc.mines.len(), 1);
    assert!(kc.mines.contains(&(3, 0)));
    assert_eq!(kc.empty.len(), 0);
}

#[test]
fn empty_board_solves_to_nothing() {
    let b = Board::from_cells(Vec::new()).expect("an empty grid");
    assert_eq!(b.w(), 0);
    assert_eq!(b.h(), 0);
    assert!(solve(&b).expect("consistent board").is_none());
}

#[test]
fn a_mark_beside_open_ground_is_flag_overcount() {
    // Open ground shows zero adjacent mines, so a mark next to it claims a
    // mine the ground denies: the solver reports the contradiction.
    let grid = vec![
        vec![visible_empty(), hidden_empty(), hidden_empty(), hidden_mine()],
    ];
    let mut b = Board::from_cells(grid).expect("a rectangular grid");
    b.mark((1, 0)).expect("in range");
    assert_eq!(solve(&b), Err(SolveError::FlagOvercount));
}
