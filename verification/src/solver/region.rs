//! Regions: the solver's unit constraint.  A region states that exactly
//! `req` of its hidden cells are mines.  One region is read off every
//! revealed empty cell; one more, the board region, spans every hidden cell.

use vstd::prelude::*;
use indexmap::IndexSet;
use crate::board::{adjacent, Board, CellCategory};
use crate::iset::{loc_set, loc_set_insert, loc_set_len, loc_set_new, loc_set_remove,
    loc_set_to_vec};
use crate::solver::SolveError;

verus! {

broadcast use vstd::seq_lib::lemma_seq_contains_after_push;

/// A revealed empty cell: the seed of one region.  A cell revealed with no
/// number counts as showing zero and seeds a region too: that zero-count
/// region is what marks the neighbours of open ground safe, and without it
/// a board such as a lone corner mine ringed by revealed ground admits no
/// deduction at all.  A revealed mine seeds nothing: the game is already
/// over there, and the solver draws no conclusion from it.
pub open spec fn region_source(b: Board, loc: (usize, usize)) -> bool {
    b.in_bounds(loc) && b.cell_at(loc).is_visible() && !b.cell_at(loc).is_mine_cell()
}

/// The adjacent-mine count a revealed empty cell shows; a cell with no
/// number shows zero.
pub open spec fn shown_count(b: Board, loc: (usize, usize)) -> int {
    match b.cell_at(loc).category {
        CellCategory::Empty(Some(n)) => n as int,
        _ => 0,
    }
}

/// The hidden, unmarked neighbours of a revealed cell: the cells its region
/// constrains.
pub open spec fn hidden_nbrs(b: Board, loc: (usize, usize)) -> Set<(usize, usize)> {
    Set::new(
        |p: (usize, usize)|
            b.in_bounds(p) && adjacent(loc, p) && b.cell_at(p).is_hidden_unmarked(),
    )
}

/// The mines a region seeded at `loc` still requires: the shown number less
/// the marks already placed around it.
pub open spec fn required_at(b: Board, loc: (usize, usize)) -> int {
    shown_count(b, loc) - b.marked_nbr_set(loc).len()
}

/// More marks around the revealed cell at `loc` than its number allows.
/// This covers cells revealed with no number: a mark next to open ground
/// claims a mine where the ground shows none, a contradiction like any
/// other overmark.
pub open spec fn flag_overcount_at(b: Board, loc: (usize, usize)) -> bool {
    region_source(b, loc) && b.marked_nbr_set(loc).len() > shown_count(b, loc)
}

/// Every cell of the board that holds a mine.
pub open spec fn mine_cells(b: Board) -> Set<(usize, usize)> {
    Set::new(|p: (usize, usize)| b.in_bounds(p) && b.cell_at(p).is_mine_cell())
}

/// Every cell of the board that carries a mark.
pub open spec fn marked_cells(b: Board) -> Set<(usize, usize)> {
    Set::new(|p: (usize, usize)| b.in_bounds(p) && b.cell_at(p).is_marked())
}

/// Every cell of the board that is still hidden and unmarked.
pub open spec fn hidden_cells(b: Board) -> Set<(usize, usize)> {
    Set::new(|p: (usize, usize)| b.in_bounds(p) && b.cell_at(p).is_hidden_unmarked())
}

/// More marks on the board than mines, counted over the whole board.
pub open spec fn board_flag_overcount(b: Board) -> bool {
    marked_cells(b).len() > mine_cells(b).len()
}

/// The board's marks are inconsistent with its numbers somewhere: around a
/// revealed cell, or in total.
pub open spec fn flag_overcount(b: Board) -> bool {
    board_flag_overcount(b) || exists|loc: (usize, usize)| flag_overcount_at(b, loc)
}

/// The board tells the truth: every number is its cell's true adjacent-mine
/// count, marks sit only on mines, and no mine has been revealed.
pub open spec fn consistent(b: Board) -> bool {
    &&& forall|p: (usize, usize)|
        b.in_bounds(p) ==> match (#[trigger] b.cell_at(p)).category {
            CellCategory::Empty(Some(n)) => n as int == b.mine_nbr_set(p).len(),
            CellCategory::Empty(None) => b.mine_nbr_set(p).len() == 0,
            CellCategory::Mine => true,
        }
    &&& forall|p: (usize, usize)|
        b.in_bounds(p) && (#[trigger] b.cell_at(p)).is_marked() ==> b.cell_at(p).is_mine_cell()
    &&& forall|p: (usize, usize)|
        b.in_bounds(p) && (#[trigger] b.cell_at(p)).is_visible() ==> !b.cell_at(p).is_mine_cell()
}

/// The mines still to find: the hidden unmarked cells that hold mines.
pub open spec fn true_mines(b: Board) -> Set<(usize, usize)> {
    hidden_cells(b).intersect(mine_cells(b))
}

/// An assignment of mines satisfies one constraint: exactly the required
/// number of the constrained cells carry mines.
pub open spec fn region_sat(a: Set<(usize, usize)>, req: int, locs: Set<(usize, usize)>) -> bool {
    locs.intersect(a).len() == req
}

/// An assignment satisfies every region of a list.
pub open spec fn regions_sat(a: Set<(usize, usize)>, regions: Seq<Region>) -> bool {
    forall|i: int|
        0 <= i < regions.len() ==> region_sat(
            a,
            (#[trigger] regions[i]).req() as int,
            regions[i].locs(),
        )
}

/// An assignment satisfies a link: some feasible split is exactly the
/// assignment's mine count in each zone.
pub open spec fn link_sat(a: Set<(usize, usize)>, l: LinkedSubRegion) -> bool {
    exists|t: (usize, usize, usize)|
        #[trigger] l.feasible().contains(t) && t.0 == l.zone0().intersect(a).len() && t.1
            == l.zone_s().intersect(a).len() && t.2 == l.zone1().intersect(a).len()
}

/// An assignment satisfies every link of a list.
pub open spec fn links_sat(a: Set<(usize, usize)>, links: Seq<LinkedSubRegion>) -> bool {
    forall|i: int| 0 <= i < links.len() ==> link_sat(a, #[trigger] links[i])
}

/// A one-element set holds nothing but its one element.
pub proof fn lemma_len1_unique(
    s: Set<(usize, usize, usize)>,
    x: (usize, usize, usize),
    y: (usize, usize, usize),
)
    requires
        s.finite(),
        s.len() == 1,
        s.contains(x),
        s.contains(y),
    ensures
        x == y,
{
    if x != y {
        assert(s.remove(x).contains(y));
        assert(s.remove(x).len() == 0);
        s.remove(x).lemma_len0_is_empty();
    }
}

/// On a consistent board, a region's required count is exactly the number of
/// its hidden neighbours that hold mines.
pub proof fn lemma_consistent_required(b: Board, loc: (usize, usize))
    requires
        consistent(b),
        region_source(b, loc),
    ensures
        hidden_nbrs(b, loc).finite(),
        required_at(b, loc) == hidden_nbrs(b, loc).intersect(true_mines(b)).len(),
        !flag_overcount_at(b, loc),
{
    let mn = b.mine_nbr_set(loc);
    let mk = b.marked_nbr_set(loc);
    let hn = hidden_nbrs(b, loc);
    let ha = hn.intersect(true_mines(b));
    crate::board::lemma_mine_nbr_set_small(b, loc);
    assert(mk.subset_of(mn));
    vstd::set_lib::lemma_len_subset(mk, mn);
    assert(ha.subset_of(mn));
    vstd::set_lib::lemma_len_subset(ha, mn);
    assert(hn.subset_of(Set::new(|p: (usize, usize)| adjacent(loc, p))));
    crate::board::lemma_adjacent_set_small(loc);
    vstd::set_lib::lemma_len_subset(hn, Set::new(|p: (usize, usize)| adjacent(loc, p)));
    assert(mk.disjoint(ha));
    assert(mn =~= mk.union(ha));
    crate::solver::algo::lemma_disjoint_union_len(mk, ha);
    assert(shown_count(b, loc) == mn.len());
}

/// Removing truly safe cells and truly mined cells from a satisfied
/// constraint leaves it satisfied, and both removals stay within bounds.
pub proof fn lemma_sat_after_removal(
    a: Set<(usize, usize)>,
    req: int,
    locs: Set<(usize, usize)>,
    e: Set<(usize, usize)>,
    m: Set<(usize, usize)>,
)
    requires
        region_sat(a, req, locs),
        e.disjoint(a),
        m.subset_of(a),
        a.finite(),
        locs.finite(),
    ensures
        region_sat(a, req - locs.intersect(m).len(), locs.difference(e).difference(m)),
        locs.intersect(m).len() <= req,
        req <= locs.difference(e).len(),
        locs.difference(e).intersect(m) == locs.intersect(m),
{
    let li = locs.intersect(a);
    vstd::set_lib::lemma_len_subset(li, locs);
    assert(locs.difference(e).intersect(a) =~= li);
    assert(locs.intersect(m) =~= li.intersect(m));
    assert(locs.difference(e).intersect(m) =~= locs.intersect(m));
    assert(locs.difference(e).difference(m).intersect(a) =~= li.difference(m));
    assert(li =~= li.intersect(m).union(li.difference(m)));
    vstd::set_lib::lemma_len_subset(li.intersect(m), li);
    vstd::set_lib::lemma_len_subset(li.difference(m), li);
    crate::solver::algo::lemma_disjoint_union_len(li.intersect(m), li.difference(m));
    assert(li.subset_of(locs.difference(e)));
    vstd::set_lib::lemma_len_subset(li, locs.difference(e));
}

/// On a consistent board, the board region's requirement counts exactly the
/// mines still to find.
pub proof fn lemma_consistent_global(b: Board)
    requires
        consistent(b),
        mine_cells(b).finite(),
        marked_cells(b).finite(),
        hidden_cells(b).finite(),
    ensures
        true_mines(b).finite(),
        marked_cells(b).len() <= mine_cells(b).len(),
        hidden_cells(b).intersect(true_mines(b)).len() == mine_cells(b).len() - marked_cells(
            b,
        ).len(),
        true_mines(b).len() == mine_cells(b).len() - marked_cells(b).len(),
{
    assert(marked_cells(b).subset_of(mine_cells(b)));
    vstd::set_lib::lemma_len_subset(marked_cells(b), mine_cells(b));
    assert(true_mines(b).subset_of(hidden_cells(b)));
    vstd::set_lib::lemma_len_subset(true_mines(b), hidden_cells(b));
    assert(mine_cells(b) =~= marked_cells(b).union(true_mines(b)));
    assert(marked_cells(b).disjoint(true_mines(b)));
    crate::solver::algo::lemma_disjoint_union_len(marked_cells(b), true_mines(b));
    assert(hidden_cells(b).intersect(true_mines(b)) =~= true_mines(b));
}

/// A constraint: exactly `mines` of the cells in `hidden` are mines, and
/// every other cell in `hidden` is safe.
#[derive(Debug, PartialEq, Eq)]
pub struct Region {
    mines: usize,
    hidden: IndexSet<(usize, usize)>,
}

impl Region {
    /// The exact number of mines the region asserts among its hidden cells.
    pub closed spec fn req(self) -> usize {
        self.mines
    }

    /// The hidden cells the region constrains.
    pub closed spec fn locs(self) -> Set<(usize, usize)> {
        loc_set(self.hidden)
    }

    /// A region never demands more mines than it has hidden cells.
    pub open spec fn wf(self) -> bool {
        self.locs().finite() && self.req() <= self.locs().len()
    }

    /// Assemble a region from its required mine count and its hidden cells.
    pub fn new(mines: usize, hidden: IndexSet<(usize, usize)>) -> (r: Region)
        requires
            loc_set(hidden).finite(),
            mines <= loc_set(hidden).len(),
        ensures
            r.wf(),
            r.req() == mines,
            r.locs() == loc_set(hidden),
    {
        Region { mines, hidden }
    }

    /// Every hidden cell of the region is a mine.
    pub fn is_all_mines(&self) -> (r: bool)
        ensures
            r == (self.req() == self.locs().len()),
    {
        self.mines == loc_set_len(&self.hidden)
    }

    /// Every hidden cell of the region is safe.
    pub fn is_all_empty(&self) -> (r: bool)
        ensures
            r == (self.req() == 0),
    {
        self.mines == 0
    }

    /// A fresh copy of the region's hidden-cell set.
    pub fn hidden_set(&self) -> (r: IndexSet<(usize, usize)>)
        ensures
            loc_set(r) == self.locs(),
            loc_set(r).finite(),
    {
        crate::iset::loc_set_clone(&self.hidden)
    }

    /// Whether the region watches the given cell.
    pub fn contains_loc(&self, p: (usize, usize)) -> (r: bool)
        ensures
            r == self.locs().contains(p),
    {
        crate::iset::loc_set_contains(&self.hidden, p)
    }

    /// The required mine count, as a value.
    pub fn required(&self) -> (n: usize)
        ensures
            n == self.req(),
    {
        self.mines
    }

    /// The number of hidden cells the region constrains.
    pub fn hidden_len(&self) -> (n: usize)
        ensures
            n == self.locs().len(),
    {
        loc_set_len(&self.hidden)
    }

    /// The hidden cells of the region, as a list without duplicates.
    pub fn hidden_locs(&self) -> (v: Vec<(usize, usize)>)
        ensures
            v@.no_duplicates(),
            v@.to_set() == self.locs(),
            v@.len() == self.locs().len(),
    {
        loc_set_to_vec(&self.hidden)
    }

    /// Drop the given locations from `hidden`, reporting how many were
    /// actually there.
    fn remove_locs_from_hidden(&mut self, locs: &Vec<(usize, usize)>) -> (n: usize)
        requires
            old(self).wf(),
        ensures
            final(self).locs() == old(self).locs().difference(locs@.to_set()),
            final(self).locs().finite(),
            final(self).req() == old(self).req(),
            n == old(self).locs().intersect(locs@.to_set()).len(),
            final(self).locs().len() == old(self).locs().len() - n,
    {
        let mut n: usize = 0;
        let mut i: usize = 0;
        proof {
            assert(old(self).locs().difference(locs@.take(0).to_set()) =~= old(self).locs());
            assert(old(self).locs().intersect(locs@.take(0).to_set()) =~= Set::empty());
        }
        while i < locs.len()
            invariant
                i <= locs@.len(),
                old(self).wf(),
                self.req() == old(self).req(),
                self.locs() == old(self).locs().difference(locs@.take(i as int).to_set()),
                self.locs().finite(),
                n == old(self).locs().intersect(locs@.take(i as int).to_set()).len(),
                self.locs().len() == old(self).locs().len() - n,
                n <= i,
            decreases locs@.len() - i,
        {
            let p = locs[i];
            let was_there = loc_set_remove(&mut self.hidden, p);
            if was_there {
                n += 1;
            }
            proof {
                let pre = locs@.take(i as int).to_set();
                let post = locs@.take(i + 1).to_set();
                assert(locs@.take(i + 1) =~= locs@.take(i as int).push(p));
                assert(post =~= pre.insert(p));
                if was_there {
                    assert(!pre.contains(p) && old(self).locs().contains(p));
                    assert(old(self).locs().intersect(post) =~= old(self).locs().intersect(
                        pre,
                    ).insert(p));
                    assert(!old(self).locs().intersect(pre).contains(p));
                } else {
                    assert(old(self).locs().intersect(post) =~= old(self).locs().intersect(pre));
                }
                assert(self.locs() =~= old(self).locs().difference(post));
            }
            i += 1;
        }
        proof {
            assert(locs@.take(locs@.len() as int) =~= locs@);
        }
        n
    }

    /// The region a revealed empty cell seeds: its shown number, less one
    /// per mark around it, over its hidden unmarked neighbours.  `None` for
    /// cells that seed no region; a contradiction between marks and the
    /// number is reported as an error.
    pub fn around(board: &Board, sentinel_loc: (usize, usize)) -> (r: Result<
        Option<Region>,
        SolveError,
    >)
        requires
            board.wf_shape(),
            board.in_bounds(sentinel_loc),
        ensures
            ({
                let src = region_source(*board, sentinel_loc);
                let fo = flag_overcount_at(*board, sentinel_loc);
                let req = required_at(*board, sentinel_loc);
                let hid = hidden_nbrs(*board, sentinel_loc);
                &&& (!src ==> r == Ok::<Option<Region>, SolveError>(None::<Region>))
                &&& (src && fo ==> r == Err::<Option<Region>, SolveError>(
                    SolveError::FlagOvercount,
                ))
                &&& (src && !fo && req > hid.len() ==> r == Err::<Option<Region>, SolveError>(
                    SolveError::EmptyFeasibilitySet,
                ))
                &&& (src && !fo && req <= hid.len() ==> (r matches Ok(Some(reg)) && reg.wf()
                    && reg.req() == req && reg.locs() == hid))
            }),
    {
        let cell = board.cell(sentinel_loc);
        if !matches!(cell.state, crate::board::CellState::Visible) {
            return Ok(None);
        }
        let shown: u8 = match cell.category {
            CellCategory::Mine => {
                return Ok(None);
            },
            CellCategory::Empty(Some(n)) => n,
            CellCategory::Empty(None) => 0,
        };
        let marked = board.count_marked_nbrs(sentinel_loc);
        if marked > shown {
            return Err(SolveError::FlagOvercount);
        }
        let num_watched: u8 = shown - marked;
        let nbrs = board.surroundings_of(sentinel_loc);
        let mut hs = loc_set_new();
        let mut i: usize = 0;
        while i < nbrs.len()
            invariant
                board.wf_shape(),
                board.in_bounds(sentinel_loc),
                i <= nbrs@.len(),
                forall|p: (usize, usize)|
                    #[trigger] nbrs@.contains(p) <==> (board.in_bounds(p) && adjacent(
                        sentinel_loc,
                        p,
                    )),
                loc_set(hs).finite(),
                loc_set(hs) == Set::new(
                    |p: (usize, usize)|
                        nbrs@.take(i as int).contains(p) && board.cell_at(p).is_hidden_unmarked(),
                ),
            decreases nbrs@.len() - i,
        {
            let p = nbrs[i];
            proof {
                assert(nbrs@.contains(p));
            }
            let c = board.cell(p);
            if matches!(c.state, crate::board::CellState::Hidden) {
                loc_set_insert(&mut hs, p);
            }
            proof {
                assert(nbrs@.take(i + 1) =~= nbrs@.take(i as int).push(p));
                assert(loc_set(hs) =~= Set::new(
                    |q: (usize, usize)|
                        nbrs@.take(i + 1).contains(q) && board.cell_at(q).is_hidden_unmarked(),
                ));
            }
            i += 1;
        }
        proof {
            assert(nbrs@.take(nbrs@.len() as int) =~= nbrs@);
            assert(loc_set(hs) =~= hidden_nbrs(*board, sentinel_loc));
        }
        let hl = loc_set_len(&hs);
        if (num_watched as usize) > hl {
            return Err(SolveError::EmptyFeasibilitySet);
        }
        Ok(Some(Region::new(num_watched as usize, hs)))
    }

    /// The whole-board region: the board's mine total, less one per mark on
    /// the board, over every hidden unmarked cell.  This single constraint is
    /// what resolves endgames.
    pub fn board(board: &Board) -> (r: Result<Region, SolveError>)
        requires
            board.wf_shape(),
        ensures
            ({
                let nm = mine_cells(*board).len();
                let nf = marked_cells(*board).len();
                let hid = hidden_cells(*board);
                &&& mine_cells(*board).finite()
                &&& marked_cells(*board).finite()
                &&& hid.finite()
                &&& (nf > nm ==> r == Err::<Region, SolveError>(SolveError::FlagOvercount))
                &&& (nf <= nm && nm - nf > hid.len() ==> r == Err::<Region, SolveError>(
                    SolveError::EmptyFeasibilitySet,
                ))
                &&& (nf <= nm && nm - nf <= hid.len() ==> (r matches Ok(reg) && reg.wf()
                    && reg.req() == nm - nf && reg.locs() == hid))
            }),
    {
        let w = board.w();
        let h = board.h();
        let mut num_mines: usize = 0;
        let mut num_flagged: usize = 0;
        let mut hs = loc_set_new();
        let ghost b = *board;
        let ghost mut gm: Set<(usize, usize)> = Set::empty();
        let ghost mut gf: Set<(usize, usize)> = Set::empty();
        let mut row: usize = 0;
        while row < h
            invariant
                board.wf_shape(),
                w == board.spec_w(),
                h == board.spec_h(),
                b == *board,
                row <= h,
                gm.finite(),
                gf.finite(),
                loc_set(hs).finite(),
                num_mines == gm.len(),
                num_flagged == gf.len(),
                gm == Set::new(
                    |p: (usize, usize)| b.in_bounds(p) && p.1 < row && b.cell_at(p).is_mine_cell(),
                ),
                gf == Set::new(
                    |p: (usize, usize)| b.in_bounds(p) && p.1 < row && b.cell_at(p).is_marked(),
                ),
                loc_set(hs) == Set::new(
                    |p: (usize, usize)|
                        b.in_bounds(p) && p.1 < row && b.cell_at(p).is_hidden_unmarked(),
                ),
                num_mines <= row * w,
                num_flagged <= row * w,
            decreases h - row,
        {
            let mut col: usize = 0;
            while col < w
                invariant
                    board.wf_shape(),
                    w == board.spec_w(),
                    h == board.spec_h(),
                    b == *board,
                    row < h,
                    col <= w,
                    gm.finite(),
                    gf.finite(),
                    loc_set(hs).finite(),
                    num_mines == gm.len(),
                    num_flagged == gf.len(),
                    gm == Set::new(
                        |p: (usize, usize)|
                            b.in_bounds(p) && (p.1 < row || (p.1 == row && p.0 < col))
                                && b.cell_at(p).is_mine_cell(),
                    ),
                    gf == Set::new(
                        |p: (usize, usize)|
                            b.in_bounds(p) && (p.1 < row || (p.1 == row && p.0 < col))
                                && b.cell_at(p).is_marked(),
                    ),
                    loc_set(hs) == Set::new(
                        |p: (usize, usize)|
                            b.in_bounds(p) && (p.1 < row || (p.1 == row && p.0 < col))
                                && b.cell_at(p).is_hidden_unmarked(),
                    ),
                    num_mines <= row * w + col,
                    num_flagged <= row * w + col,
                decreases w - col,
            {
                let loc = (col, row);
                let c = board.cell(loc);
                proof {
                    board.lemma_wf_shape_area();
                    assert(row * w + col + 1 <= h * w) by (nonlinear_arith)
                        requires
                            row < h,
                            col < w,
                            0 <= row,
                            0 <= col,
                            0 <= w,
                    ;
                    assert(h * w == w * h);
                }
                if c.is_mine() {
                    num_mines += 1;
                    proof {
                        assert(!gm.contains(loc));
                        gm = gm.insert(loc);
                    }
                }
                if matches!(c.state, crate::board::CellState::Marked) {
                    num_flagged += 1;
                    proof {
                        assert(!gf.contains(loc));
                        gf = gf.insert(loc);
                    }
                } else if matches!(c.state, crate::board::CellState::Hidden) {
                    proof {
                        assert(!loc_set(hs).contains(loc));
                    }
                    loc_set_insert(&mut hs, loc);
                }
                proof {
                    assert(gm =~= Set::new(
                        |p: (usize, usize)|
                            b.in_bounds(p) && (p.1 < row || (p.1 == row && p.0 < col + 1))
                                && b.cell_at(p).is_mine_cell(),
                    ));
                    assert(gf =~= Set::new(
                        |p: (usize, usize)|
                            b.in_bounds(p) && (p.1 < row || (p.1 == row && p.0 < col + 1))
                                && b.cell_at(p).is_marked(),
                    ));
                    assert(loc_set(hs) =~= Set::new(
                        |p: (usize, usize)|
                            b.in_bounds(p) && (p.1 < row || (p.1 == row && p.0 < col + 1))
                                && b.cell_at(p).is_hidden_unmarked(),
                    ));
                }
                col += 1;
            }
            proof {
                assert(gm =~= Set::new(
                    |p: (usize, usize)|
                        b.in_bounds(p) && p.1 < row + 1 && b.cell_at(p).is_mine_cell(),
                ));
                assert(gf =~= Set::new(
                    |p: (usize, usize)| b.in_bounds(p) && p.1 < row + 1 && b.cell_at(p).is_marked(),
                ));
                assert(loc_set(hs) =~= Set::new(
                    |p: (usize, usize)|
                        b.in_bounds(p) && p.1 < row + 1 && b.cell_at(p).is_hidden_unmarked(),
                ));
                assert((row + 1) * w == row * w + w) by (nonlinear_arith);
            }
            row += 1;
        }
        proof {
            assert(gm =~= mine_cells(b));
            assert(gf =~= marked_cells(b));
            assert(loc_set(hs) =~= hidden_cells(b));
        }
        if num_flagged > num_mines {
            return Err(SolveError::FlagOvercount);
        }
        let req = num_mines - num_flagged;
        let hl = loc_set_len(&hs);
        if req > hl {
            return Err(SolveError::EmptyFeasibilitySet);
        }
        Ok(Region::new(req, hs))
    }

    /// Drop locations known to be safe: the required count stays; fails when
    /// the region is left demanding more mines than it has cells.
    pub fn remove_empty_locs(&mut self, locs: &IndexSet<(usize, usize)>) -> (r: Result<
        (),
        SolveError,
    >)
        requires
            old(self).wf(),
        ensures
            final(self).req() == old(self).req(),
            final(self).locs() == old(self).locs().difference(loc_set(*locs)),
            final(self).locs().finite(),
            r is Ok <==> old(self).req() <= old(self).locs().difference(loc_set(*locs)).len(),
            r is Err ==> r == Err::<(), SolveError>(SolveError::EmptyFeasibilitySet),
            r is Ok ==> final(self).wf(),
    {
        let v = loc_set_to_vec(locs);
        proof {
            assert(v@.to_set() == loc_set(*locs));
        }
        let _ = self.remove_locs_from_hidden(&v);
        if self.mines > loc_set_len(&self.hidden) {
            Err(SolveError::EmptyFeasibilitySet)
        } else {
            Ok(())
        }
    }

    /// Drop locations known to be mines: the required count falls by the
    /// number dropped; fails when more mines are dropped than the region
    /// required.
    pub fn remove_mine_locs(&mut self, locs: &IndexSet<(usize, usize)>) -> (r: Result<
        (),
        SolveError,
    >)
        requires
            old(self).wf(),
        ensures
            final(self).locs() == old(self).locs().difference(loc_set(*locs)),
            final(self).locs().finite(),
            r is Ok <==> old(self).locs().intersect(loc_set(*locs)).len() <= old(self).req(),
            r is Ok ==> final(self).req() == old(self).req() - old(self).locs().intersect(
                loc_set(*locs),
            ).len() && final(self).wf(),
            r is Err ==> r == Err::<(), SolveError>(SolveError::EmptyFeasibilitySet),
    {
        let v = loc_set_to_vec(locs);
        proof {
            assert(v@.to_set() == loc_set(*locs));
        }
        let n = self.remove_locs_from_hidden(&v);
        if n > self.mines {
            Err(SolveError::EmptyFeasibilitySet)
        } else {
            self.mines = self.mines - n;
            Ok(())
        }
    }
}

/// The model of a region: its required count and its cells.
pub open spec fn region_model(r: Region) -> (int, Set<(usize, usize)>) {
    (r.req() as int, r.locs())
}

/// The models of a list of regions.
pub open spec fn region_models(s: Seq<Region>) -> Seq<(int, Set<(usize, usize)>)> {
    s.map_values(|r: Region| region_model(r))
}

/// What a safe strip leaves of the first `k` regions: the not-all-safe ones,
/// in order, each less the resolved cells `zu`.
pub open spec fn zero_residual_upto(s: Seq<Region>, k: int, zu: Set<(usize, usize)>) -> Seq<
    (int, Set<(usize, usize)>),
>
    decreases k,
{
    if k <= 0 {
        Seq::empty()
    } else {
        let rest = zero_residual_upto(s, k - 1, zu);
        if s[k - 1].req() != 0 {
            rest.push((s[k - 1].req() as int, s[k - 1].locs().difference(zu)))
        } else {
            rest
        }
    }
}

/// What a mine strip leaves of the first `k` regions: the not-all-mine ones,
/// in order, each less the resolved cells `mu`, their counts lowered by the
/// mines removed.
pub open spec fn mined_residual_upto(s: Seq<Region>, k: int, mu: Set<(usize, usize)>) -> Seq<
    (int, Set<(usize, usize)>),
>
    decreases k,
{
    if k <= 0 {
        Seq::empty()
    } else {
        let rest = mined_residual_upto(s, k - 1, mu);
        if s[k - 1].req() != s[k - 1].locs().len() {
            rest.push(
                (
                    s[k - 1].req() - s[k - 1].locs().intersect(mu).len(),
                    s[k - 1].locs().difference(mu),
                ),
            )
        } else {
            rest
        }
    }
}

/// The union of the hidden sets of the all-safe regions among the first `k`.
pub open spec fn zero_union_upto(s: Seq<Region>, k: int) -> Set<(usize, usize)>
    decreases k,
{
    if k <= 0 {
        Set::empty()
    } else {
        zero_union_upto(s, k - 1).union(
            if s[k - 1].req() == 0 {
                s[k - 1].locs()
            } else {
                Set::empty()
            },
        )
    }
}

/// The union of the hidden sets of the all-safe regions.
pub open spec fn zero_union(s: Seq<Region>) -> Set<(usize, usize)> {
    zero_union_upto(s, s.len() as int)
}

/// The union of the hidden sets of the all-mine regions among the first `k`.
pub open spec fn mined_union_upto(s: Seq<Region>, k: int) -> Set<(usize, usize)>
    decreases k,
{
    if k <= 0 {
        Set::empty()
    } else {
        mined_union_upto(s, k - 1).union(
            if s[k - 1].req() == s[k - 1].locs().len() {
                s[k - 1].locs()
            } else {
                Set::empty()
            },
        )
    }
}

/// The union of the hidden sets of the all-mine regions.
pub open spec fn mined_union(s: Seq<Region>) -> Set<(usize, usize)> {
    mined_union_upto(s, s.len() as int)
}

/// An all-mine region's cells all land in the union over all-mine regions.
pub proof fn lemma_mined_union_contains(s: Seq<Region>, i: int, k: int)
    requires
        0 <= i < k <= s.len(),
        s[i].req() == s[i].locs().len(),
    ensures
        s[i].locs().subset_of(mined_union_upto(s, k)),
    decreases k,
{
    if i < k - 1 {
        lemma_mined_union_contains(s, i, k - 1);
    }
}

/// What a stripping pass returns: the locations it resolved, and the regions
/// left over, already shrunk by those locations.
#[derive(Debug)]
pub struct StrippedRegions {
    pub locs: IndexSet<(usize, usize)>,
    pub regions: Vec<Region>,
}

// Removing regions that are all-safe or all-mine.
impl Region {
    /// A fresh region with the same required count over the same cells.
    pub fn duplicate(&self) -> (r: Region)
        ensures
            r.req() == self.req(),
            r.locs() == self.locs(),
            r.locs().finite(),
    {
        Region { mines: self.mines, hidden: crate::iset::loc_set_clone(&self.hidden) }
    }

    /// Pull out every region requiring no mine: all their hidden cells are
    /// safe, and are removed from the remaining regions.  Fails when removal
    /// leaves some region demanding more mines than it has cells.
    pub fn strip_zero_regions_from(rr: Vec<Region>) -> (r: Result<StrippedRegions, SolveError>)
        requires
            forall|i: int| 0 <= i < rr@.len() ==> (#[trigger] rr@[i]).wf(),
        ensures
            match r {
                Ok(sr) => {
                    &&& loc_set(sr.locs) == zero_union(rr@)
                    &&& loc_set(sr.locs).finite()
                    &&& sr.regions@.len() <= rr@.len()
                    &&& region_models(sr.regions@) == zero_residual_upto(
                        rr@,
                        rr@.len() as int,
                        zero_union(rr@),
                    )
                    &&& forall|j: int|
                        0 <= j < sr.regions@.len() ==> (#[trigger] sr.regions@[j]).wf()
                            && sr.regions@[j].req() >= 1
                    &&& forall|j: int|
                        0 <= j < sr.regions@.len() ==> (#[trigger] sr.regions@[j]).locs()
                            .subset_of(locs_union(rr@).difference(zero_union(rr@)))
                    &&& forall|i: int|
                        0 <= i < rr@.len() && (#[trigger] rr@[i]).req() != 0 && rr@[i].req()
                            == rr@[i].locs().len() ==> rr@[i].locs().subset_of(
                            mined_union(sr.regions@),
                        )
                },
                Err(e) => {
                    e == SolveError::EmptyFeasibilitySet
                },
            },
            (r is Ok <==> forall|i: int|
                0 <= i < rr@.len() ==> (#[trigger] rr@[i]).req() <= rr@[i].locs().difference(
                    zero_union(rr@),
                ).len()),
    {
        let mut zero_locs = loc_set_new();
        let mut k: usize = 0;
        while k < rr.len()
            invariant
                k <= rr@.len(),
                forall|i: int| 0 <= i < rr@.len() ==> (#[trigger] rr@[i]).wf(),
                loc_set(zero_locs) == zero_union_upto(rr@, k as int),
                loc_set(zero_locs).finite(),
            decreases rr@.len() - k,
        {
            if rr[k].is_all_empty() {
                let v = rr[k].hidden_locs();
                let ghost zu0 = loc_set(zero_locs);
                let mut t: usize = 0;
                while t < v.len()
                    invariant
                        t <= v@.len(),
                        0 <= k < rr@.len(),
                        v@.to_set() == rr@[k as int].locs(),
                        loc_set(zero_locs) == zu0.union(v@.take(t as int).to_set()),
                        loc_set(zero_locs).finite(),
                    decreases v@.len() - t,
                {
                    loc_set_insert(&mut zero_locs, v[t]);
                    proof {
                        assert(v@.take(t + 1) =~= v@.take(t as int).push(v@[t as int]));
                        assert(loc_set(zero_locs) =~= zu0.union(v@.take(t + 1).to_set()));
                    }
                    t += 1;
                }
                proof {
                    assert(v@.take(v@.len() as int) =~= v@);
                    assert(loc_set(zero_locs) =~= zero_union_upto(rr@, k + 1));
                }
            } else {
                proof {
                    assert(loc_set(zero_locs) =~= zero_union_upto(rr@, k + 1));
                }
            }
            k += 1;
        }
        let ghost zu = zero_union(rr@);
        let mut out: Vec<Region> = Vec::new();
        let ghost mut m: Seq<int> = Seq::empty();
        let ghost mut rm: Seq<int> = Seq::empty();
        let mut k2: usize = 0;
        while k2 < rr.len()
            invariant
                k2 <= rr@.len(),
                forall|i: int| 0 <= i < rr@.len() ==> (#[trigger] rr@[i]).wf(),
                loc_set(zero_locs) == zu,
                zu == zero_union(rr@),
                loc_set(zero_locs).finite(),
                out@.len() <= k2,
                m.len() == out@.len(),
                rm.len() == k2,
                forall|j: int|
                    0 <= j < out@.len() ==> {
                        &&& 0 <= #[trigger] m[j] < k2
                        &&& rr@[m[j]].req() != 0
                        &&& out@[j].req() == rr@[m[j]].req()
                        &&& out@[j].locs() == rr@[m[j]].locs().difference(zu)
                        &&& out@[j].wf()
                    },
                forall|i: int|
                    0 <= i < k2 && (#[trigger] rr@[i]).req() != 0 ==> {
                        &&& 0 <= rm[i] < out@.len()
                        &&& out@[rm[i]].req() == rr@[i].req()
                        &&& out@[rm[i]].locs() == rr@[i].locs().difference(zu)
                        &&& out@[rm[i]].wf()
                    },
                region_models(out@) == zero_residual_upto(rr@, k2 as int, zu),
                forall|i: int|
                    0 <= i < k2 ==> (#[trigger] rr@[i]).req() <= rr@[i].locs().difference(
                        zu,
                    ).len(),
            decreases rr@.len() - k2,
        {
            if !rr[k2].is_all_empty() {
                let mut reg = rr[k2].duplicate();
                match reg.remove_empty_locs(&zero_locs) {
                    Ok(()) => {
                        let ghost out0 = out@;
                        out.push(reg);
                        proof {
                            m = m.push(k2 as int);
                            rm = rm.push(out@.len() - 1);
                            assert(region_models(out@) =~= zero_residual_upto(
                                rr@,
                                k2 + 1,
                                zu,
                            )) by {
                                assert(region_models(out@).len() == out0.len() + 1);
                                assert forall|j: int|
                                    0 <= j < out@.len() implies region_models(out@)[j]
                                    == zero_residual_upto(rr@, k2 + 1, zu)[j] by {
                                    if j < out0.len() {
                                        assert(out@[j] == out0[j]);
                                        assert(region_models(out0)[j] == region_model(out0[j]));
                                    } else {
                                        assert(out@[j] == reg);
                                    }
                                }
                            }
                        }
                    },
                    Err(e) => {
                        proof {
                            assert(rr@[k2 as int].req() > rr@[k2 as int].locs().difference(
                                zu,
                            ).len());
                            assert(!(forall|i: int|
                                0 <= i < rr@.len() ==> (#[trigger] rr@[i]).req()
                                    <= rr@[i].locs().difference(zero_union(rr@)).len()));
                        }
                        return Err(e);
                    },
                }
            } else {
                proof {
                    rm = rm.push(-1);
                }
            }
            k2 += 1;
        }
        proof {
            assert forall|j: int|
                0 <= j < out@.len() implies (#[trigger] out@[j]).locs().subset_of(
                locs_union(rr@).difference(zu),
            ) by {
                lemma_locs_union_contains(rr@, m[j], rr@.len() as int);
            }
            assert forall|i: int|
                0 <= i < rr@.len() && (#[trigger] rr@[i]).req() != 0 && rr@[i].req()
                    == rr@[i].locs().len() implies rr@[i].locs().subset_of(
                mined_union(out@),
            ) by {
                let j = rm[i];
                assert(out@[j].req() == rr@[i].req());
                assert(out@[j].locs() == rr@[i].locs().difference(zu));
                lemma_subset_same_len(rr@[i].locs().difference(zu), rr@[i].locs());
                assert(out@[j].locs() =~= rr@[i].locs());
                assert(out@[j].req() == out@[j].locs().len());
                lemma_mined_union_contains(out@, j, out@.len() as int);
            }
        }
        proof {
            assert(loc_set(zero_locs) == zero_union(rr@));
            assert(out@.len() <= rr@.len());
            assert forall|j: int|
                0 <= j < out@.len() implies (#[trigger] out@[j]).wf() && out@[j].req() >= 1 by {
                assert(0 <= m[j]);
                assert(rr@[m[j]].req() != 0);
            }
            assert(forall|j: int|
                0 <= j < out@.len() ==> (#[trigger] out@[j]).locs().subset_of(
                    locs_union(rr@).difference(zero_union(rr@))));
            assert(forall|i: int|
                0 <= i < rr@.len() && (#[trigger] rr@[i]).req() != 0 && rr@[i].req()
                    == rr@[i].locs().len() ==> rr@[i].locs().subset_of(mined_union(out@)));
        }
        Ok(StrippedRegions { locs: zero_locs, regions: out })
    }

    /// Pull out every region whose hidden cells are all mines: those cells
    /// are removed from the remaining regions, lowering their required
    /// counts.  Fails when a region loses more mines than it required.
    pub fn strip_mine_regions_from(rr: Vec<Region>) -> (r: Result<StrippedRegions, SolveError>)
        requires
            forall|i: int| 0 <= i < rr@.len() ==> (#[trigger] rr@[i]).wf(),
        ensures
            match r {
                Ok(sr) => {
                    &&& loc_set(sr.locs) == mined_union(rr@)
                    &&& loc_set(sr.locs).finite()
                    &&& sr.regions@.len() <= rr@.len()
                    &&& region_models(sr.regions@) == mined_residual_upto(
                        rr@,
                        rr@.len() as int,
                        mined_union(rr@),
                    )
                    &&& forall|j: int| 0 <= j < sr.regions@.len() ==> (#[trigger] sr.regions@[j]).wf()
                    &&& forall|j: int|
                        0 <= j < sr.regions@.len() ==> (#[trigger] sr.regions@[j]).locs()
                            .subset_of(locs_union(rr@).difference(mined_union(rr@)))
                },
                Err(e) => {
                    e == SolveError::EmptyFeasibilitySet
                },
            },
            (r is Ok <==> forall|i: int|
                0 <= i < rr@.len() ==> (#[trigger] rr@[i]).locs().intersect(
                    mined_union(rr@),
                ).len() <= rr@[i].req()),
    {
        let mut mine_locs = loc_set_new();
        let mut k: usize = 0;
        while k < rr.len()
            invariant
                k <= rr@.len(),
                forall|i: int| 0 <= i < rr@.len() ==> (#[trigger] rr@[i]).wf(),
                loc_set(mine_locs) == mined_union_upto(rr@, k as int),
                loc_set(mine_locs).finite(),
            decreases rr@.len() - k,
        {
            if rr[k].is_all_mines() {
                let v = rr[k].hidden_locs();
                let ghost mu0 = loc_set(mine_locs);
                let mut t: usize = 0;
                while t < v.len()
                    invariant
                        t <= v@.len(),
                        0 <= k < rr@.len(),
                        v@.to_set() == rr@[k as int].locs(),
                        loc_set(mine_locs) == mu0.union(v@.take(t as int).to_set()),
                        loc_set(mine_locs).finite(),
                    decreases v@.len() - t,
                {
                    loc_set_insert(&mut mine_locs, v[t]);
                    proof {
                        assert(v@.take(t + 1) =~= v@.take(t as int).push(v@[t as int]));
                        assert(loc_set(mine_locs) =~= mu0.union(v@.take(t + 1).to_set()));
                    }
                    t += 1;
                }
                proof {
                    assert(v@.take(v@.len() as int) =~= v@);
                    assert(loc_set(mine_locs) =~= mined_union_upto(rr@, k + 1));
                }
            } else {
                proof {
                    assert(loc_set(mine_locs) =~= mined_union_upto(rr@, k + 1));
                }
            }
            k += 1;
        }
        let ghost mu = mined_union(rr@);
        let mut out: Vec<Region> = Vec::new();
        let ghost mut m: Seq<int> = Seq::empty();
        let mut k2: usize = 0;
        while k2 < rr.len()
            invariant
                k2 <= rr@.len(),
                forall|i: int| 0 <= i < rr@.len() ==> (#[trigger] rr@[i]).wf(),
                loc_set(mine_locs) == mu,
                mu == mined_union(rr@),
                loc_set(mine_locs).finite(),
                out@.len() <= k2,
                m.len() == out@.len(),
                forall|j: int|
                    0 <= j < out@.len() ==> {
                        &&& 0 <= #[trigger] m[j] < k2
                        &&& out@[j].locs() == rr@[m[j]].locs().difference(mu)
                        &&& out@[j].wf()
                    },
                region_models(out@) == mined_residual_upto(rr@, k2 as int, mu),
                forall|i: int|
                    0 <= i < k2 ==> (#[trigger] rr@[i]).locs().intersect(mu).len()
                        <= rr@[i].req(),
            decreases rr@.len() - k2,
        {
            if !rr[k2].is_all_mines() {
                let mut reg = rr[k2].duplicate();
                match reg.remove_mine_locs(&mine_locs) {
                    Ok(()) => {
                        let ghost out0 = out@;
                        out.push(reg);
                        proof {
                            m = m.push(k2 as int);
                            assert forall|j: int| 0 <= j < out@.len() implies {
                                &&& 0 <= #[trigger] m[j] < k2 + 1
                                &&& out@[j].locs() == rr@[m[j]].locs().difference(mu)
                                &&& out@[j].wf()
                            } by {
                                if j < out0.len() {
                                    assert(out@[j] == out0[j]);
                                } else {
                                    assert(out@[j] == reg);
                                    assert(m[j] == k2 as int);
                                }
                            }
                            assert(region_models(out@) =~= mined_residual_upto(
                                rr@,
                                k2 + 1,
                                mu,
                            )) by {
                                assert(region_models(out@).len() == out0.len() + 1);
                                assert forall|j: int|
                                    0 <= j < out@.len() implies region_models(out@)[j]
                                    == mined_residual_upto(rr@, k2 + 1, mu)[j] by {
                                    if j < out0.len() {
                                        assert(out@[j] == out0[j]);
                                        assert(region_models(out0)[j] == region_model(out0[j]));
                                    } else {
                                        assert(out@[j] == reg);
                                    }
                                }
                            }
                        }
                    },
                    Err(e) => {
                        proof {
                            assert(rr@[k2 as int].locs().intersect(mu).len() > rr@[k2 as int].req());
                            assert(!(forall|i: int|
                                0 <= i < rr@.len() ==> (#[trigger] rr@[i]).locs().intersect(
                                    mined_union(rr@),
                                ).len() <= rr@[i].req()));
                        }
                        return Err(e);
                    },
                }
            } else {
                proof {
                    lemma_mined_union_contains(rr@, k2 as int, rr@.len() as int);
                    assert(rr@[k2 as int].locs().intersect(mu) =~= rr@[k2 as int].locs());
                }
            }
            k2 += 1;
        }
        proof {
            assert forall|j: int|
                0 <= j < out@.len() implies (#[trigger] out@[j]).locs().subset_of(
                locs_union(rr@).difference(mu),
            ) by {
                lemma_locs_union_contains(rr@, m[j], rr@.len() as int);
            }
        }
        proof {
            assert(loc_set(mine_locs) == mined_union(rr@));
            assert(out@.len() <= rr@.len());
            assert forall|j: int| 0 <= j < out@.len() implies (#[trigger] out@[j]).wf() by {
                assert(0 <= m[j]);
            }
            assert(forall|j: int|
                0 <= j < out@.len() ==> (#[trigger] out@[j]).locs().subset_of(
                    locs_union(rr@).difference(mined_union(rr@))));
        }
        Ok(StrippedRegions { locs: mine_locs, regions: out })
    }
}

/// The union of the hidden sets of the first `k` regions.
pub open spec fn locs_union_upto(s: Seq<Region>, k: int) -> Set<(usize, usize)>
    decreases k,
{
    if k <= 0 {
        Set::empty()
    } else {
        locs_union_upto(s, k - 1).union(s[k - 1].locs())
    }
}

/// The union of the hidden sets of all the regions.
pub open spec fn locs_union(s: Seq<Region>) -> Set<(usize, usize)> {
    locs_union_upto(s, s.len() as int)
}

/// Each region's cells land in the union over all regions.
pub proof fn lemma_locs_union_contains(s: Seq<Region>, i: int, k: int)
    requires
        0 <= i < k <= s.len(),
    ensures
        s[i].locs().subset_of(locs_union_upto(s, k)),
    decreases k,
{
    if i < k - 1 {
        lemma_locs_union_contains(s, i, k - 1);
    }
}

/// The union over regions whose cells all lie in `x` lies in `x`.
pub proof fn lemma_locs_union_bound(s: Seq<Region>, k: int, x: Set<(usize, usize)>)
    requires
        0 <= k <= s.len(),
        forall|i: int| 0 <= i < s.len() ==> (#[trigger] s[i]).locs().subset_of(x),
    ensures
        locs_union_upto(s, k).subset_of(x),
    decreases k,
{
    if k > 0 {
        lemma_locs_union_bound(s, k - 1, x);
    }
}

/// The union over all-safe regions whose cells all lie in `x` lies in `x`.
pub proof fn lemma_zero_union_bound(s: Seq<Region>, k: int, x: Set<(usize, usize)>)
    requires
        0 <= k <= s.len(),
        forall|i: int| 0 <= i < s.len() ==> (#[trigger] s[i]).locs().subset_of(x),
    ensures
        zero_union_upto(s, k).subset_of(x),
    decreases k,
{
    if k > 0 {
        lemma_zero_union_bound(s, k - 1, x);
    }
}

/// The union over all-mine regions whose cells all lie in `x` lies in `x`.
pub proof fn lemma_mined_union_bound(s: Seq<Region>, k: int, x: Set<(usize, usize)>)
    requires
        0 <= k <= s.len(),
        forall|i: int| 0 <= i < s.len() ==> (#[trigger] s[i]).locs().subset_of(x),
    ensures
        mined_union_upto(s, k).subset_of(x),
    decreases k,
{
    if k > 0 {
        lemma_mined_union_bound(s, k - 1, x);
    }
}

/// A safe strip keeps every region exactly when none is all-safe.
pub proof fn lemma_zero_residual_len(s: Seq<Region>, k: int, zu: Set<(usize, usize)>)
    requires
        0 <= k <= s.len(),
    ensures
        zero_residual_upto(s, k, zu).len() <= k,
        zero_residual_upto(s, k, zu).len() == k <==> (forall|i: int|
            0 <= i < k ==> (#[trigger] s[i]).req() != 0),
    decreases k,
{
    if k > 0 {
        lemma_zero_residual_len(s, k - 1, zu);
    }
}

/// A mine strip keeps every region exactly when none is all-mine.
pub proof fn lemma_mined_residual_len(s: Seq<Region>, k: int, mu: Set<(usize, usize)>)
    requires
        0 <= k <= s.len(),
    ensures
        mined_residual_upto(s, k, mu).len() <= k,
        mined_residual_upto(s, k, mu).len() == k <==> (forall|i: int|
            0 <= i < k ==> (#[trigger] s[i]).req() != s[i].locs().len()),
    decreases k,
{
    if k > 0 {
        lemma_mined_residual_len(s, k - 1, mu);
    }
}

/// With no all-safe region, the all-safe union is empty.
pub proof fn lemma_zero_union_empty(s: Seq<Region>, k: int)
    requires
        0 <= k <= s.len(),
        forall|i: int| 0 <= i < k ==> (#[trigger] s[i]).req() != 0,
    ensures
        zero_union_upto(s, k) == Set::<(usize, usize)>::empty(),
    decreases k,
{
    if k > 0 {
        lemma_zero_union_empty(s, k - 1);
        assert(zero_union_upto(s, k) =~= Set::<(usize, usize)>::empty());
    }
}

/// With no all-mine region, a mine strip keeps every region in place, each
/// shrunk by the resolved cells.
pub proof fn lemma_mined_residual_full(s: Seq<Region>, k: int, mu: Set<(usize, usize)>)
    requires
        0 <= k <= s.len(),
        forall|i: int| 0 <= i < k ==> (#[trigger] s[i]).req() != s[i].locs().len(),
    ensures
        mined_residual_upto(s, k, mu).len() == k,
        forall|t: int|
            0 <= t < k ==> #[trigger] mined_residual_upto(s, k, mu)[t] == (
                s[t].req() - s[t].locs().intersect(mu).len(),
                s[t].locs().difference(mu),
            ),
    decreases k,
{
    if k > 0 {
        lemma_mined_residual_full(s, k - 1, mu);
        assert forall|t: int| 0 <= t < k implies #[trigger] mined_residual_upto(s, k, mu)[t] == (
            s[t].req() - s[t].locs().intersect(mu).len(),
            s[t].locs().difference(mu),
        ) by {
            if t < k - 1 {
                assert(mined_residual_upto(s, k, mu)[t] == mined_residual_upto(s, k - 1, mu)[t]);
            }
        }
    }
}

/// With no all-mine region, the all-mine union is empty.
pub proof fn lemma_mined_union_empty(s: Seq<Region>, k: int)
    requires
        0 <= k <= s.len(),
        forall|i: int| 0 <= i < k ==> (#[trigger] s[i]).req() != s[i].locs().len(),
    ensures
        mined_union_upto(s, k) == Set::<(usize, usize)>::empty(),
    decreases k,
{
    if k > 0 {
        lemma_mined_union_empty(s, k - 1);
        assert(mined_union_upto(s, k) =~= Set::<(usize, usize)>::empty());
    }
}

/// Truncating two sequences of regions at a common prefix leaves the same
/// union of all-safe regions.
pub proof fn lemma_zero_union_prefix(s1: Seq<Region>, s2: Seq<Region>, k: int)
    requires
        0 <= k <= s1.len(),
        k <= s2.len(),
        forall|i: int| 0 <= i < k ==> s1[i] == s2[i],
    ensures
        zero_union_upto(s1, k) == zero_union_upto(s2, k),
    decreases k,
{
    if k > 0 {
        lemma_zero_union_prefix(s1, s2, k - 1);
    }
}

/// Truncating two sequences of regions at a common prefix leaves the same
/// union of all-mine regions.
pub proof fn lemma_mined_union_prefix(s1: Seq<Region>, s2: Seq<Region>, k: int)
    requires
        0 <= k <= s1.len(),
        k <= s2.len(),
        forall|i: int| 0 <= i < k ==> s1[i] == s2[i],
    ensures
        mined_union_upto(s1, k) == mined_union_upto(s2, k),
    decreases k,
{
    if k > 0 {
        lemma_mined_union_prefix(s1, s2, k - 1);
    }
}

/// If every all-mine region's cells lie in `x`, so does their union.
pub proof fn lemma_mined_union_in(s: Seq<Region>, k: int, x: Set<(usize, usize)>)
    requires
        0 <= k <= s.len(),
        forall|i: int|
            0 <= i < s.len() && (#[trigger] s[i]).req() == s[i].locs().len() ==> s[i].locs()
                .subset_of(x),
    ensures
        mined_union_upto(s, k).subset_of(x),
    decreases k,
{
    if k > 0 {
        lemma_mined_union_in(s, k - 1, x);
    }
}

/// Two region lists equal in model (required counts and cells) have the
/// same all-mine union.
pub proof fn lemma_mined_union_model(s1: Seq<Region>, s2: Seq<Region>, k: int)
    requires
        0 <= k <= s1.len(),
        k <= s2.len(),
        forall|i: int|
            0 <= i < k ==> (#[trigger] s1[i]).req() == s2[i].req() && s1[i].locs() == s2[i].locs(),
    ensures
        mined_union_upto(s1, k) == mined_union_upto(s2, k),
    decreases k,
{
    if k > 0 {
        lemma_mined_union_model(s1, s2, k - 1);
    }
}

/// A subset of a finite set with no fewer elements is the whole set.
pub proof fn lemma_subset_same_len(a: Set<(usize, usize)>, b: Set<(usize, usize)>)
    requires
        a.subset_of(b),
        b.finite(),
        a.len() >= b.len(),
    ensures
        a == b,
{
    if exists|x: (usize, usize)| b.contains(x) && !a.contains(x) {
        let x = choose|x: (usize, usize)| b.contains(x) && !a.contains(x);
        assert(a.subset_of(b.remove(x)));
        vstd::set_lib::lemma_len_subset(a, b.remove(x));
        assert(b.remove(x).len() == b.len() - 1);
        assert(false);
    }
    assert(a =~= b);
}

/// Drop the given locations from a set, reporting how many were there.
fn remove_from_iset(s: &mut IndexSet<(usize, usize)>, locs: &Vec<(usize, usize)>) -> (n: usize)
    requires
        loc_set(*old(s)).finite(),
    ensures
        loc_set(*final(s)) == loc_set(*old(s)).difference(locs@.to_set()),
        loc_set(*final(s)).finite(),
        n == loc_set(*old(s)).intersect(locs@.to_set()).len(),
        loc_set(*final(s)).len() == loc_set(*old(s)).len() - n,
{
    let mut n: usize = 0;
    let mut i: usize = 0;
    proof {
        assert(loc_set(*s).difference(locs@.take(0).to_set()) =~= loc_set(*s));
        assert(loc_set(*s).intersect(locs@.take(0).to_set()) =~= Set::empty());
    }
    while i < locs.len()
        invariant
            i <= locs@.len(),
            loc_set(*old(s)).finite(),
            loc_set(*s) == loc_set(*old(s)).difference(locs@.take(i as int).to_set()),
            loc_set(*s).finite(),
            n == loc_set(*old(s)).intersect(locs@.take(i as int).to_set()).len(),
            loc_set(*s).len() == loc_set(*old(s)).len() - n,
            n <= i,
        decreases locs@.len() - i,
    {
        let p = locs[i];
        let was_there = loc_set_remove(s, p);
        if was_there {
            n += 1;
        }
        proof {
            let pre = locs@.take(i as int).to_set();
            let post = locs@.take(i + 1).to_set();
            assert(locs@.take(i + 1) =~= locs@.take(i as int).push(p));
            assert(post =~= pre.insert(p));
            if was_there {
                assert(!pre.contains(p) && loc_set(*old(s)).contains(p));
                assert(loc_set(*old(s)).intersect(post) =~= loc_set(*old(s)).intersect(
                    pre,
                ).insert(p));
                assert(!loc_set(*old(s)).intersect(pre).contains(p));
            } else {
                assert(loc_set(*old(s)).intersect(post) =~= loc_set(*old(s)).intersect(pre));
            }
            assert(loc_set(*s) =~= loc_set(*old(s)).difference(post));
        }
        i += 1;
    }
    proof {
        assert(locs@.take(locs@.len() as int) =~= locs@);
    }
    n
}

/// Two overlapping regions, split into the cells only in the first (`r0`),
/// the shared cells (`rs`), and the cells only in the second (`r1`), with
/// the set of mine-count splits `(m0, ms, m1)` that both constraints allow.
#[derive(Debug)]
pub struct LinkedSubRegion {
    pub mine_sets: IndexSet<(usize, usize, usize)>,
    pub r0: IndexSet<(usize, usize)>,
    pub rs: IndexSet<(usize, usize)>,
    pub r1: IndexSet<(usize, usize)>,
}

impl LinkedSubRegion {
    /// The cells only in the first parent.
    pub open spec fn zone0(self) -> Set<(usize, usize)> {
        loc_set(self.r0)
    }

    /// The cells the parents share.
    pub open spec fn zone_s(self) -> Set<(usize, usize)> {
        loc_set(self.rs)
    }

    /// The cells only in the second parent.
    pub open spec fn zone1(self) -> Set<(usize, usize)> {
        loc_set(self.r1)
    }

    /// Every cell the link touches.
    pub open spec fn cells(self) -> Set<(usize, usize)> {
        self.zone0().union(self.zone_s()).union(self.zone1())
    }

    /// The feasible mine-count splits.
    pub open spec fn feasible(self) -> Set<(usize, usize, usize)> {
        crate::iset::tri_set(self.mine_sets)
    }

    /// Zones are disjoint and every feasible split fits its zones.
    pub open spec fn wf(self) -> bool {
        &&& self.zone0().finite()
        &&& self.zone_s().finite()
        &&& self.zone1().finite()
        &&& self.feasible().finite()
        &&& self.zone0().disjoint(self.zone_s())
        &&& self.zone0().disjoint(self.zone1())
        &&& self.zone_s().disjoint(self.zone1())
        &&& forall|t: (usize, usize, usize)|
            self.feasible().contains(t) ==> (#[trigger] t.0) <= self.zone0().len() && t.1
                <= self.zone_s().len() && t.2 <= self.zone1().len()
    }

    /// Link two regions over their shared hidden cells, enumerating every
    /// split of the shared mine count both allow.  `None` when they share
    /// nothing; an error when no split at all is feasible.
    #[verifier::spinoff_prover]
    #[verifier::rlimit(100)]
    pub fn deduce_links(parent0: &Region, parent1: &Region) -> (r: Result<
        Option<LinkedSubRegion>,
        SolveError,
    >)
        requires
            parent0.wf(),
            parent1.wf(),
        ensures
            ({
                let a = parent0.locs();
                let b = parent1.locs();
                let shared = a.intersect(b);
                let n0 = a.difference(b).len() as int;
                let ns = shared.len() as int;
                let n1 = b.difference(a).len() as int;
                let q0 = parent0.req() as int;
                let q1 = parent1.req() as int;
                let lo = vstd::math::max(0, vstd::math::max(q0 - n0, q1 - n1));
                let hi = vstd::math::min(ns, vstd::math::min(q0, q1));
                &&& (shared.is_empty() ==> r == Ok::<Option<LinkedSubRegion>, SolveError>(
                    None::<LinkedSubRegion>,
                ))
                &&& (!shared.is_empty() && lo > hi ==> r == Err::<
                    Option<LinkedSubRegion>,
                    SolveError,
                >(SolveError::EmptyFeasibilitySet))
                &&& (!shared.is_empty() && lo <= hi ==> (r matches Ok(Some(l)) && {
                    &&& l.wf()
                    &&& l.zone0() == a.difference(b)
                    &&& l.zone_s() == shared
                    &&& l.zone1() == b.difference(a)
                    &&& !l.feasible().is_empty()
                    &&& forall|t: (usize, usize, usize)|
                        l.feasible().contains(t) <==> (lo <= #[trigger] t.1 <= hi && t.0 == q0
                            - t.1 && t.2 == q1 - t.1)
                }))
            }),
    {
        let (r0h, rsh, r1h) = crate::util::split_sets(&parent0.hidden, &parent1.hidden);
        let ns = loc_set_len(&rsh);
        if ns == 0 {
            proof {
                loc_set(rsh).lemma_len0_is_empty();
            }
            return Ok(None);
        }
        let n0 = loc_set_len(&r0h);
        let n1 = loc_set_len(&r1h);
        let q0 = parent0.required();
        let q1 = parent1.required();
        let lo0: usize = if q0 > n0 {
            q0 - n0
        } else {
            0
        };
        let lo1: usize = if q1 > n1 {
            q1 - n1
        } else {
            0
        };
        let lo: usize = if lo0 > lo1 {
            lo0
        } else {
            lo1
        };
        let hi01: usize = if q0 < q1 {
            q0
        } else {
            q1
        };
        let hi: usize = if ns < hi01 {
            ns
        } else {
            hi01
        };
        if lo > hi {
            return Err(SolveError::EmptyFeasibilitySet);
        }
        let mut linkages = crate::iset::tri_set_new();
        let mut ms: usize = lo;
        while ms < hi
            invariant
                lo <= ms <= hi,
                hi <= q0 && hi <= q1 && hi <= loc_set(rsh).len(),
                lo >= q0 - loc_set(r0h).len() && lo >= q1 - loc_set(r1h).len(),
                crate::iset::tri_set(linkages).finite(),
                forall|t: (usize, usize, usize)|
                    crate::iset::tri_set(linkages).contains(t) <==> (lo <= #[trigger] t.1 < ms
                        && t.0 == q0 - t.1 && t.2 == q1 - t.1),
            decreases hi - ms,
        {
            crate::iset::tri_set_insert(&mut linkages, (q0 - ms, ms, q1 - ms));
            proof {
                assert forall|t: (usize, usize, usize)|
                    crate::iset::tri_set(linkages).contains(t) <==> (lo <= #[trigger] t.1 < ms + 1
                        && t.0 == q0 - t.1 && t.2 == q1 - t.1) by {
                    if t == ((q0 - ms) as usize, ms, (q1 - ms) as usize) {
                    }
                }
            }
            ms += 1;
        }
        crate::iset::tri_set_insert(&mut linkages, (q0 - hi, hi, q1 - hi));
        proof {
            assert forall|t: (usize, usize, usize)|
                crate::iset::tri_set(linkages).contains(t) <==> (lo <= #[trigger] t.1 <= hi && t.0
                    == q0 - t.1 && t.2 == q1 - t.1) by {
                if t == ((q0 - hi) as usize, hi, (q1 - hi) as usize) {
                }
            }
            assert(crate::iset::tri_set(linkages).contains(
                ((q0 - hi) as usize, hi, (q1 - hi) as usize),
            ));
        }
        let l = LinkedSubRegion { mine_sets: linkages, r0: r0h, rs: rsh, r1: r1h };
        proof {
            assert(l.zone0().disjoint(l.zone_s()));
            assert(l.zone0().disjoint(l.zone1()));
            assert(l.zone_s().disjoint(l.zone1()));
            assert forall|t: (usize, usize, usize)| l.feasible().contains(t) implies (
            #[trigger] t.0) <= l.zone0().len() && t.1 <= l.zone_s().len() && t.2
                <= l.zone1().len() by {
                assert(lo <= t.1 <= hi);
            }
            assert(!l.feasible().is_empty());
        }
        Ok(Some(l))
    }

    /// Remove cells now known to be mines: each zone shrinks, and every
    /// feasible split gives up one mine per removed cell of its zone; splits
    /// with too few are discarded.  The survivors are exactly the old splits
    /// shifted down by the per-zone removal counts.  Fails when no split
    /// survives.
    pub fn remove_mines(&mut self, locs: &IndexSet<(usize, usize)>) -> (r: Result<(), SolveError>)
        requires
            old(self).wf(),
        ensures
            final(self).zone0() == old(self).zone0().difference(loc_set(*locs)),
            final(self).zone_s() == old(self).zone_s().difference(loc_set(*locs)),
            final(self).zone1() == old(self).zone1().difference(loc_set(*locs)),
            final(self).wf(),
            forall|t: (usize, usize, usize)|
                (#[trigger] final(self).feasible().contains(t)) <==> ({
                    let a0 = old(self).zone0().intersect(loc_set(*locs)).len();
                    let a_s = old(self).zone_s().intersect(loc_set(*locs)).len();
                    let a1 = old(self).zone1().intersect(loc_set(*locs)).len();
                    &&& t.0 + a0 <= usize::MAX
                    &&& t.1 + a_s <= usize::MAX
                    &&& t.2 + a1 <= usize::MAX
                    &&& old(self).feasible().contains(
                        (((t.0 + a0) as usize, (t.1 + a_s) as usize, (t.2 + a1) as usize)),
                    )
                }),
            r is Err ==> r == Err::<(), SolveError>(SolveError::EmptyFeasibilitySet),
            r is Ok <==> !final(self).feasible().is_empty(),
    {
        let lv = loc_set_to_vec(locs);
        let k0 = remove_from_iset(&mut self.r0, &lv);
        let ks = remove_from_iset(&mut self.rs, &lv);
        let k1 = remove_from_iset(&mut self.r1, &lv);
        let tv = crate::iset::tri_set_to_vec(&self.mine_sets);
        let mut kept = crate::iset::tri_set_new();
        let mut i: usize = 0;
        proof {
            assert(tv@.take(0).to_set() =~= Set::<(usize, usize, usize)>::empty());
        }
        while i < tv.len()
            invariant
                i <= tv@.len(),
                tv@.no_duplicates(),
                tv@.to_set() == old(self).feasible(),
                k0 == old(self).zone0().intersect(loc_set(*locs)).len(),
                ks == old(self).zone_s().intersect(loc_set(*locs)).len(),
                k1 == old(self).zone1().intersect(loc_set(*locs)).len(),
                forall|t: (usize, usize, usize)|
                    tv@.contains(t) ==> (#[trigger] t.0) <= loc_set(self.r0).len() + k0 && t.1
                        <= loc_set(self.rs).len() + ks && t.2 <= loc_set(self.r1).len() + k1,
                crate::iset::tri_set(kept).finite(),
                forall|t: (usize, usize, usize)|
                    (#[trigger] crate::iset::tri_set(kept).contains(t)) <==> (t.0 + k0
                        <= usize::MAX && t.1 + ks <= usize::MAX && t.2 + k1 <= usize::MAX && tv@
                        .take(i as int).to_set().contains(
                        (((t.0 + k0) as usize, (t.1 + ks) as usize, (t.2 + k1) as usize)),
                    )),
                forall|t: (usize, usize, usize)|
                    crate::iset::tri_set(kept).contains(t) ==> (#[trigger] t.0) <= loc_set(
                        self.r0,
                    ).len() && t.1 <= loc_set(self.rs).len() && t.2 <= loc_set(self.r1).len(),
            decreases tv@.len() - i,
        {
            let t = tv[i];
            proof {
                assert(tv@.contains(t));
                assert(tv@.take(i + 1) =~= tv@.take(i as int).push(t));
            }
            if t.0 >= k0 && t.1 >= ks && t.2 >= k1 {
                crate::iset::tri_set_insert(&mut kept, (t.0 - k0, t.1 - ks, t.2 - k1));
                proof {
                    assert forall|q: (usize, usize, usize)|
                        (#[trigger] crate::iset::tri_set(kept).contains(q)) <==> (q.0 + k0
                            <= usize::MAX && q.1 + ks <= usize::MAX && q.2 + k1 <= usize::MAX
                            && tv@.take(i + 1).to_set().contains(
                            (((q.0 + k0) as usize, (q.1 + ks) as usize, (q.2 + k1) as usize)),
                        )) by {
                        if q == ((t.0 - k0) as usize, (t.1 - ks) as usize, (t.2 - k1) as usize) {
                            assert(((q.0 + k0) as usize, (q.1 + ks) as usize, (q.2 + k1) as usize)
                                == t);
                            assert(tv@.take(i + 1).to_set().contains(t));
                        }
                    }
                }
            } else {
                proof {
                    assert forall|q: (usize, usize, usize)|
                        (#[trigger] crate::iset::tri_set(kept).contains(q)) <==> (q.0 + k0
                            <= usize::MAX && q.1 + ks <= usize::MAX && q.2 + k1 <= usize::MAX
                            && tv@.take(i + 1).to_set().contains(
                            (((q.0 + k0) as usize, (q.1 + ks) as usize, (q.2 + k1) as usize)),
                        )) by {
                        if ((q.0 + k0) as usize, (q.1 + ks) as usize, (q.2 + k1) as usize) == t
                            && q.0 + k0 <= usize::MAX && q.1 + ks <= usize::MAX && q.2 + k1
                            <= usize::MAX {
                            assert(false);
                        }
                    }
                }
            }
            i += 1;
        }
        proof {
            assert(tv@.take(tv@.len() as int) =~= tv@);
        }
        self.mine_sets = kept;
        if crate::iset::tri_set_len(&self.mine_sets) == 0 {
            proof {
                self.feasible().lemma_len0_is_empty();
            }
            Err(SolveError::EmptyFeasibilitySet)
        } else {
            proof {
                if self.feasible().is_empty() {
                    self.feasible().lemma_len0_is_empty();
                }
                assert(!self.feasible().is_empty());
            }
            Ok(())
        }
    }

    /// Remove cells now known to be safe: each zone shrinks, and splits that
    /// demand more mines than a zone still has are discarded.  The survivors
    /// are exactly the old splits that fit the shrunken zones.  Fails when
    /// no split survives.
    pub fn remove_empty(&mut self, locs: &IndexSet<(usize, usize)>) -> (r: Result<(), SolveError>)
        requires
            old(self).wf(),
        ensures
            final(self).zone0() == old(self).zone0().difference(loc_set(*locs)),
            final(self).zone_s() == old(self).zone_s().difference(loc_set(*locs)),
            final(self).zone1() == old(self).zone1().difference(loc_set(*locs)),
            final(self).wf(),
            forall|t: (usize, usize, usize)|
                (#[trigger] final(self).feasible().contains(t)) <==> (old(self).feasible()
                    .contains(t) && t.0 <= final(self).zone0().len()
                    && t.1 <= final(self).zone_s().len() && t.2 <= final(self).zone1().len()),
            r is Err ==> r == Err::<(), SolveError>(SolveError::EmptyFeasibilitySet),
            r is Ok <==> !final(self).feasible().is_empty(),
    {
        let lv = loc_set_to_vec(locs);
        let _ = remove_from_iset(&mut self.r0, &lv);
        let _ = remove_from_iset(&mut self.rs, &lv);
        let _ = remove_from_iset(&mut self.r1, &lv);
        let n0 = loc_set_len(&self.r0);
        let ns = loc_set_len(&self.rs);
        let n1 = loc_set_len(&self.r1);
        let tv = crate::iset::tri_set_to_vec(&self.mine_sets);
        let mut kept = crate::iset::tri_set_new();
        let mut i: usize = 0;
        proof {
            assert(tv@.take(0).to_set() =~= Set::<(usize, usize, usize)>::empty());
        }
        while i < tv.len()
            invariant
                i <= tv@.len(),
                tv@.to_set() == old(self).feasible(),
                n0 == loc_set(self.r0).len(),
                ns == loc_set(self.rs).len(),
                n1 == loc_set(self.r1).len(),
                crate::iset::tri_set(kept).finite(),
                forall|t: (usize, usize, usize)|
                    (#[trigger] crate::iset::tri_set(kept).contains(t)) <==> (tv@.take(
                        i as int,
                    ).to_set().contains(t) && t.0 <= n0 && t.1 <= ns && t.2 <= n1),
            decreases tv@.len() - i,
        {
            let t = tv[i];
            proof {
                assert(tv@.take(i + 1) =~= tv@.take(i as int).push(t));
            }
            if t.0 <= n0 && t.1 <= ns && t.2 <= n1 {
                crate::iset::tri_set_insert(&mut kept, t);
            }
            proof {
                assert forall|q: (usize, usize, usize)|
                    (#[trigger] crate::iset::tri_set(kept).contains(q)) <==> (tv@.take(
                        i + 1,
                    ).to_set().contains(q) && q.0 <= n0 && q.1 <= ns && q.2 <= n1) by {}
            }
            i += 1;
        }
        proof {
            assert(tv@.take(tv@.len() as int) =~= tv@);
        }
        self.mine_sets = kept;
        if crate::iset::tri_set_len(&self.mine_sets) == 0 {
            proof {
                self.feasible().lemma_len0_is_empty();
            }
            Err(SolveError::EmptyFeasibilitySet)
        } else {
            proof {
                if self.feasible().is_empty() {
                    self.feasible().lemma_len0_is_empty();
                }
                assert(!self.feasible().is_empty());
            }
            Ok(())
        }
    }
}

/// The region was read off some revealed cell of the board.
pub open spec fn from_source(b: Board, reg: Region) -> bool {
    exists|loc: (usize, usize)|
        region_source(b, loc) && reg.req() == required_at(b, loc) && reg.locs()
            == #[trigger] hidden_nbrs(b, loc)
}

/// A satisfying assignment splits across two overlapping constraints into
/// zone counts that add up to each side's requirement and fit each zone.
pub proof fn lemma_sat_split_bounds(
    a: Set<(usize, usize)>,
    q0: int,
    q1: int,
    az: Set<(usize, usize)>,
    bz: Set<(usize, usize)>,
)
    requires
        a.finite(),
        az.finite(),
        bz.finite(),
        az.intersect(a).len() == q0,
        bz.intersect(a).len() == q1,
    ensures
        ({
            let ms = az.intersect(bz).intersect(a).len() as int;
            let m0 = az.difference(bz).intersect(a).len() as int;
            let m1 = bz.difference(az).intersect(a).len() as int;
            &&& q0 == m0 + ms
            &&& q1 == ms + m1
            &&& m0 <= az.difference(bz).len()
            &&& ms <= az.intersect(bz).len()
            &&& m1 <= bz.difference(az).len()
        }),
{
    let z0 = az.difference(bz);
    let zs = az.intersect(bz);
    let z1 = bz.difference(az);
    assert(az.intersect(a) =~= z0.intersect(a).union(zs.intersect(a)));
    assert(z0.intersect(a).disjoint(zs.intersect(a)));
    crate::solver::algo::lemma_disjoint_union_len(z0.intersect(a), zs.intersect(a));
    assert(bz.intersect(a) =~= zs.intersect(a).union(z1.intersect(a)));
    assert(zs.intersect(a).disjoint(z1.intersect(a)));
    crate::solver::algo::lemma_disjoint_union_len(zs.intersect(a), z1.intersect(a));
    vstd::set_lib::lemma_len_subset(z0.intersect(a), z0);
    vstd::set_lib::lemma_len_subset(zs.intersect(a), zs);
    vstd::set_lib::lemma_len_subset(z1.intersect(a), z1);
}

/// A satisfying assignment touches no cell of any all-safe region, hence
/// none of their union.
pub proof fn lemma_zero_union_disjoint(a: Set<(usize, usize)>, s: Seq<Region>, k: int)
    requires
        0 <= k <= s.len(),
        a.finite(),
        regions_sat(a, s),
        forall|i: int| 0 <= i < s.len() ==> (#[trigger] s[i]).wf(),
    ensures
        zero_union_upto(s, k).disjoint(a),
    decreases k,
{
    if k > 0 {
        lemma_zero_union_disjoint(a, s, k - 1);
        if s[k - 1].req() == 0 {
            assert(region_sat(a, s[k - 1].req() as int, s[k - 1].locs()));
            s[k - 1].locs().intersect(a).lemma_len0_is_empty();
            assert forall|p: (usize, usize)|
                zero_union_upto(s, k).contains(p) implies !a.contains(p) by {
                if s[k - 1].locs().contains(p) && a.contains(p) {
                    assert(s[k - 1].locs().intersect(a).contains(p));
                }
            }
        }
    }
}

/// After dropping the all-safe cells, what a safe strip leaves is still
/// satisfied by the assignment.
pub proof fn lemma_zero_residual_sat(
    a: Set<(usize, usize)>,
    s: Seq<Region>,
    k: int,
    zu: Set<(usize, usize)>,
)
    requires
        0 <= k <= s.len(),
        a.finite(),
        regions_sat(a, s),
        forall|i: int| 0 <= i < s.len() ==> (#[trigger] s[i]).wf(),
        zu.disjoint(a),
    ensures
        forall|t: int|
            0 <= t < zero_residual_upto(s, k, zu).len() ==> (#[trigger] zero_residual_upto(
                s,
                k,
                zu,
            )[t]).1.intersect(a).len() == zero_residual_upto(s, k, zu)[t].0,
    decreases k,
{
    if k > 0 {
        lemma_zero_residual_sat(a, s, k - 1, zu);
        let rest = zero_residual_upto(s, k - 1, zu);
        let cur = zero_residual_upto(s, k, zu);
        if s[k - 1].req() != 0 {
            assert(region_sat(a, s[k - 1].req() as int, s[k - 1].locs()));
            assert(s[k - 1].locs().difference(zu).intersect(a) =~= s[k - 1].locs().intersect(a));
            assert forall|t: int|
                0 <= t < cur.len() implies (#[trigger] cur[t]).1.intersect(a).len()
                == cur[t].0 by {
                if t < rest.len() {
                    assert(cur[t] == rest[t]);
                } else {
                    assert(cur[t] == (
                        s[k - 1].req() as int,
                        s[k - 1].locs().difference(zu),
                    ));
                }
            }
        }
    }
}

/// A satisfying assignment covers every cell of every all-mine region, hence
/// their whole union.
pub proof fn lemma_mined_union_in_a(a: Set<(usize, usize)>, s: Seq<Region>, k: int)
    requires
        0 <= k <= s.len(),
        a.finite(),
        regions_sat(a, s),
        forall|i: int| 0 <= i < s.len() ==> (#[trigger] s[i]).wf(),
    ensures
        mined_union_upto(s, k).subset_of(a),
    decreases k,
{
    if k > 0 {
        lemma_mined_union_in_a(a, s, k - 1);
        if s[k - 1].req() == s[k - 1].locs().len() {
            assert(region_sat(a, s[k - 1].req() as int, s[k - 1].locs()));
            lemma_subset_same_len(s[k - 1].locs().intersect(a), s[k - 1].locs());
            assert forall|p: (usize, usize)|
                mined_union_upto(s, k).contains(p) implies a.contains(p) by {
                if s[k - 1].locs().contains(p) && !mined_union_upto(s, k - 1).contains(p) {
                    assert(s[k - 1].locs().intersect(a).contains(p));
                }
            }
        }
    }
}

/// After the all-mine cells are removed and the counts lowered, what a mine
/// strip leaves is still satisfied by the assignment.
pub proof fn lemma_mined_residual_sat(
    a: Set<(usize, usize)>,
    s: Seq<Region>,
    k: int,
    mu: Set<(usize, usize)>,
)
    requires
        0 <= k <= s.len(),
        a.finite(),
        regions_sat(a, s),
        forall|i: int| 0 <= i < s.len() ==> (#[trigger] s[i]).wf(),
        mu.subset_of(a),
    ensures
        forall|t: int|
            0 <= t < mined_residual_upto(s, k, mu).len() ==> (#[trigger] mined_residual_upto(
                s,
                k,
                mu,
            )[t]).1.intersect(a).len() == mined_residual_upto(s, k, mu)[t].0,
    decreases k,
{
    if k > 0 {
        lemma_mined_residual_sat(a, s, k - 1, mu);
        let rest = mined_residual_upto(s, k - 1, mu);
        let cur = mined_residual_upto(s, k, mu);
        if s[k - 1].req() != s[k - 1].locs().len() {
            assert(region_sat(a, s[k - 1].req() as int, s[k - 1].locs()));
            lemma_zone_shift(a, s[k - 1].locs(), mu);
            assert forall|t: int|
                0 <= t < cur.len() implies (#[trigger] cur[t]).1.intersect(a).len()
                == cur[t].0 by {
                if t < rest.len() {
                    assert(cur[t] == rest[t]);
                } else {
                    assert(cur[t] == (
                        s[k - 1].req() - s[k - 1].locs().intersect(mu).len(),
                        s[k - 1].locs().difference(mu),
                    ));
                }
            }
        }
    }
}

/// A satisfying assignment survives a link's mine removal: the shifted
/// split is still feasible.
pub proof fn lemma_link_sat_mines(
    aw: Set<(usize, usize)>,
    l0: LinkedSubRegion,
    lm: LinkedSubRegion,
    m: Set<(usize, usize)>,
)
    requires
        l0.wf(),
        link_sat(aw, l0),
        aw.finite(),
        m.subset_of(aw),
        lm.zone0() == l0.zone0().difference(m),
        lm.zone_s() == l0.zone_s().difference(m),
        lm.zone1() == l0.zone1().difference(m),
        forall|t: (usize, usize, usize)|
            (#[trigger] lm.feasible().contains(t)) <==> ({
                let a0 = l0.zone0().intersect(m).len();
                let a_s = l0.zone_s().intersect(m).len();
                let a1 = l0.zone1().intersect(m).len();
                &&& t.0 + a0 <= usize::MAX
                &&& t.1 + a_s <= usize::MAX
                &&& t.2 + a1 <= usize::MAX
                &&& l0.feasible().contains(
                    (((t.0 + a0) as usize, (t.1 + a_s) as usize, (t.2 + a1) as usize)),
                )
            }),
    ensures
        link_sat(aw, lm),
        !lm.feasible().is_empty(),
{
    let ta = choose|t: (usize, usize, usize)|
        #[trigger] l0.feasible().contains(t) && t.0 == l0.zone0().intersect(aw).len() && t.1
            == l0.zone_s().intersect(aw).len() && t.2 == l0.zone1().intersect(aw).len();
    lemma_zone_shift(aw, l0.zone0(), m);
    lemma_zone_shift(aw, l0.zone_s(), m);
    lemma_zone_shift(aw, l0.zone1(), m);
    let tm = (
        (ta.0 - l0.zone0().intersect(m).len()) as usize,
        (ta.1 - l0.zone_s().intersect(m).len()) as usize,
        (ta.2 - l0.zone1().intersect(m).len()) as usize,
    );
    assert(lm.feasible().contains(tm));
    assert(tm.0 == lm.zone0().intersect(aw).len());
    assert(tm.1 == lm.zone_s().intersect(aw).len());
    assert(tm.2 == lm.zone1().intersect(aw).len());
}

/// In a zone, the mines a satisfying assignment keeps after removing known
/// mines are the old ones less the removed ones.
proof fn lemma_zone_shift(aw: Set<(usize, usize)>, z: Set<(usize, usize)>, m: Set<(usize, usize)>)
    requires
        aw.finite(),
        z.finite(),
        m.subset_of(aw),
    ensures
        z.intersect(m).len() <= z.intersect(aw).len(),
        z.difference(m).intersect(aw).len() == z.intersect(aw).len() - z.intersect(m).len(),
{
    let za = z.intersect(aw);
    vstd::set_lib::lemma_len_subset(za, z);
    assert(z.intersect(m) =~= za.intersect(m));
    assert(z.difference(m).intersect(aw) =~= za.difference(m));
    assert(za =~= za.intersect(m).union(za.difference(m)));
    vstd::set_lib::lemma_len_subset(za.intersect(m), za);
    vstd::set_lib::lemma_len_subset(za.difference(m), za);
    crate::solver::algo::lemma_disjoint_union_len(za.intersect(m), za.difference(m));
}

/// A satisfying assignment survives a link's safe-cell removal: its split
/// still fits every shrunken zone.
pub proof fn lemma_link_sat_empty(
    aw: Set<(usize, usize)>,
    lm: LinkedSubRegion,
    lf: LinkedSubRegion,
    e: Set<(usize, usize)>,
)
    requires
        lm.wf(),
        link_sat(aw, lm),
        aw.finite(),
        e.disjoint(aw),
        lf.zone0() == lm.zone0().difference(e),
        lf.zone_s() == lm.zone_s().difference(e),
        lf.zone1() == lm.zone1().difference(e),
        forall|t: (usize, usize, usize)|
            (#[trigger] lf.feasible().contains(t)) <==> (lm.feasible().contains(t) && t.0
                <= lf.zone0().len() && t.1 <= lf.zone_s().len() && t.2 <= lf.zone1().len()),
    ensures
        link_sat(aw, lf),
        !lf.feasible().is_empty(),
{
    let ta = choose|t: (usize, usize, usize)|
        #[trigger] lm.feasible().contains(t) && t.0 == lm.zone0().intersect(aw).len() && t.1
            == lm.zone_s().intersect(aw).len() && t.2 == lm.zone1().intersect(aw).len();
    lemma_zone_keep(aw, lm.zone0(), e);
    lemma_zone_keep(aw, lm.zone_s(), e);
    lemma_zone_keep(aw, lm.zone1(), e);
    assert(lf.feasible().contains(ta));
}

/// In a zone, a satisfying assignment's mines are untouched by removing
/// known safe cells, and still fit the zone.
proof fn lemma_zone_keep(aw: Set<(usize, usize)>, z: Set<(usize, usize)>, e: Set<(usize, usize)>)
    requires
        aw.finite(),
        z.finite(),
        e.disjoint(aw),
    ensures
        z.difference(e).intersect(aw) == z.intersect(aw),
        z.intersect(aw).len() <= z.difference(e).len(),
{
    assert(z.difference(e).intersect(aw) =~= z.intersect(aw));
    assert(z.intersect(aw).subset_of(z.difference(e)));
    vstd::set_lib::lemma_len_subset(z.intersect(aw), z.difference(e));
}

} // verus!
