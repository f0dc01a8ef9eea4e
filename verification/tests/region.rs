use indexmap::IndexSet;
use minesweeper::board::Board;
use minesweeper::solver::region::{LinkedSubRegion, Region};

const MINES: usize = 5;
const LOCS: [(usize, usize); MINES] = [(0, 0), (0, 4), (0, 9), (1, 2), (1, 8)];

const SAVE: &[u8] = b"x \n  \n x\n  \nx \n  \n  \n  \n x\nx \n";

fn test_board() -> Board {
    Board::from_save(SAVE).expect("board to parse correctly from file.")
}

#[test]
fn new_test() {
    let locs: IndexSet<_> = LOCS.iter().cloned().collect();
    let _r = Region::new(MINES, locs);
}

#[test]
fn board_test() {
    let locs: IndexSet<_> = LOCS.iter().cloned().collect();
    let r = Region::new(MINES, locs);
    let test = Region::board(&test_board()).expect("the save file's marks to be consistent.");

    assert!(r == test);
}

#[test]
fn surroundings_test() {
    let _r = Region::new(0, IndexSet::new());

    let _b = test_board();
    assert!(true);
}

#[test]
fn region_getters() {
    let locs: IndexSet<_> = LOCS.iter().cloned().collect();
    let r = Region::new(3, locs);
    assert_eq!(r.required(), 3);
    assert_eq!(r.hidden_len(), 5);
    assert!(!r.is_all_empty());
    assert!(!r.is_all_mines());
    assert!(r.contains_loc((1, 2)));
    assert!(!r.contains_loc((7, 7)));
    let mut v = r.hidden_locs();
    v.sort();
    assert_eq!(v, vec![(0, 0), (0, 4), (0, 9), (1, 2), (1, 8)]);
}

#[test]
fn around_reads_marks() {
    // A lone mine in the middle; the corner shows 1.
    let b = Board::from_save(b"  H\n x \nH  \n").expect("parse");
    // (0,0) is visible and shows its count; its hidden neighbour is (1,1).
    let reg = Region::around(&b, (0, 0))
        .expect("no contradiction")
        .expect("a revealed cell seeds a region");
    assert_eq!(reg.required(), 1);
    assert!(reg.contains_loc((1, 1)));
}

#[test]
fn strip_zero_collects_safe_cells() {
    let mut a: IndexSet<(usize, usize)> = IndexSet::new();
    a.insert((0, 0));
    a.insert((1, 0));
    let mut b: IndexSet<(usize, usize)> = IndexSet::new();
    b.insert((1, 0));
    b.insert((2, 0));
    let regions = vec![Region::new(0, a), Region::new(1, b)];
    let sr = Region::strip_zero_regions_from(regions).expect("consistent");
    assert!(sr.locs.contains(&(0, 0)));
    assert!(sr.locs.contains(&(1, 0)));
    assert_eq!(sr.locs.len(), 2);
    assert_eq!(sr.regions.len(), 1);
    assert_eq!(sr.regions[0].required(), 1);
    assert_eq!(sr.regions[0].hidden_len(), 1);
}

#[test]
fn strip_mines_lowers_counts() {
    let mut a: IndexSet<(usize, usize)> = IndexSet::new();
    a.insert((0, 0));
    let mut b: IndexSet<(usize, usize)> = IndexSet::new();
    b.insert((0, 0));
    b.insert((1, 0));
    let regions = vec![Region::new(1, a), Region::new(1, b)];
    let sr = Region::strip_mine_regions_from(regions).expect("consistent");
    assert!(sr.locs.contains(&(0, 0)));
    assert_eq!(sr.locs.len(), 1);
    assert_eq!(sr.regions.len(), 1);
    assert_eq!(sr.regions[0].required(), 0);
    assert_eq!(sr.regions[0].hidden_len(), 1);
}

fn locs(v: &[(usize, usize)]) -> IndexSet<(usize, usize)> {
    v.iter().cloned().collect()
}

#[test]
fn links_enumerate_the_sound_bounds() {
    // A watches {x, s}, B watches {s, y}, both need one mine: the shared
    // count ranges over max(0, 1-1, 1-1) ..= min(1, 1, 1), so exactly the
    // splits (1,0,1) and (0,1,0) are feasible.
    let a = Region::new(1, locs(&[(0, 0), (1, 0)]));
    let b = Region::new(1, locs(&[(1, 0), (2, 0)]));
    let l = LinkedSubRegion::deduce_links(&a, &b)
        .expect("feasible")
        .expect("they overlap");
    assert_eq!(l.r0, locs(&[(0, 0)]));
    assert_eq!(l.rs, locs(&[(1, 0)]));
    assert_eq!(l.r1, locs(&[(2, 0)]));
    assert_eq!(l.mine_sets.len(), 2);
    assert!(l.mine_sets.contains(&(1, 0, 1)));
    assert!(l.mine_sets.contains(&(0, 1, 0)));
}

#[test]
fn links_skip_disjoint_regions() {
    let a = Region::new(1, locs(&[(0, 0)]));
    let b = Region::new(1, locs(&[(5, 5)]));
    assert!(LinkedSubRegion::deduce_links(&a, &b).expect("feasible").is_none());
}

#[test]
fn link_removal_shifts_and_filters_splits() {
    let a = Region::new(1, locs(&[(0, 0), (1, 0)]));
    let b = Region::new(1, locs(&[(1, 0), (2, 0)]));
    let mut l = LinkedSubRegion::deduce_links(&a, &b)
        .expect("feasible")
        .expect("they overlap");
    // (0,0) turns out to be a mine: only the split with a mine in the
    // exclusive zone survives, shifted down.
    l.remove_mines(&locs(&[(0, 0)])).expect("a split survives");
    assert_eq!(l.mine_sets.len(), 1);
    assert!(l.mine_sets.contains(&(0, 0, 1)));
    // (1,0) turns out to be safe: the shared zone empties and the remaining
    // split still fits.
    l.remove_empty(&locs(&[(1, 0)])).expect("a split survives");
    assert_eq!(l.mine_sets.len(), 1);
    assert!(l.mine_sets.contains(&(0, 0, 1)));
}
