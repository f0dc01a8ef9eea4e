//! The board: a grid of cells, each hidden, marked or visible, each a mine or
//! empty (with a count of adjacent mines).  Construction places mines and
//! derives the counts; play proceeds by marking and digging.

use vstd::prelude::*;

verus! {

broadcast use vstd::seq_lib::lemma_seq_contains_after_push;

/// Failures of a play action.
#[derive(Debug, PartialEq, Eq, Copy, Clone, Structural)]
pub enum Error {
    OOB,
    Dead,
    Marked,
}

/// What a cell holds: a mine, or empty ground.  An empty cell revealed next
/// to `n >= 1` mines carries `Empty(Some(n))`; an empty cell with no adjacent
/// mine carries `Empty(None)`.
#[derive(Debug, PartialEq, Eq, Copy, Clone)]
pub enum CellCategory {
    Mine,
    Empty(Option<u8>),
}

impl Default for CellCategory {
    fn default() -> (r: Self)
        ensures
            r == CellCategory::Empty(None::<u8>),
    {
        CellCategory::Empty(None)
    }
}

/// What the player sees of a cell.
#[derive(Debug, PartialEq, Eq, Copy, Clone, Structural)]
pub enum CellState {
    Hidden,
    Marked,
    Visible,
}

impl Default for CellState {
    fn default() -> (r: Self)
        ensures
            r == CellState::Hidden,
    {
        CellState::Hidden
    }
}

/// One cell of the board.  `scratch` is a scratchpad bit used by the
/// flood-fill reveal; it carries no meaning between calls.
#[derive(Debug, PartialEq, Eq, Copy, Clone)]
pub struct Cell {
    pub state: CellState,
    pub category: CellCategory,
    pub scratch: bool,
}

impl Default for Cell {
    fn default() -> (r: Self)
        ensures
            r == (Cell {
                state: CellState::Hidden,
                category: CellCategory::Empty(None::<u8>),
                scratch: false,
            }),
    {
        Cell { state: CellState::Hidden, category: CellCategory::Empty(None), scratch: false }
    }
}

impl Cell {
    /// The cell holds a mine.
    pub open spec fn is_mine_cell(self) -> bool {
        self.category == CellCategory::Mine
    }

    /// The cell is still hidden and not marked.
    pub open spec fn is_hidden_unmarked(self) -> bool {
        self.state == CellState::Hidden
    }

    /// The cell carries a mark.
    pub open spec fn is_marked(self) -> bool {
        self.state == CellState::Marked
    }

    /// The cell has been revealed.
    pub open spec fn is_visible(self) -> bool {
        self.state == CellState::Visible
    }

    /// An empty cell's adjacent-mine count, if revealed as a number, lies in
    /// `1 ..= 8`.
    pub open spec fn wf(self) -> bool {
        match self.category {
            CellCategory::Empty(Some(n)) => 1 <= n <= 8,
            _ => true,
        }
    }

    /// The cell holds a mine (run-time test).
    pub fn is_mine(&self) -> (r: bool)
        ensures
            r == self.is_mine_cell(),
    {
        matches!(self.category, CellCategory::Mine)
    }

    pub open spec fn spec_char(self) -> char {
        match self.state {
            CellState::Hidden => '\u{25A1}',
            CellState::Marked => 'F',
            CellState::Visible => match self.category {
                CellCategory::Mine => 'M',
                CellCategory::Empty(None) => '\u{25A0}',
                CellCategory::Empty(Some(n)) => (('0' as u8) + n) as char,
            },
        }
    }

    /// The character the cell is drawn as.
    pub fn to_char(&self) -> (c: char)
        requires
            self.wf(),
        ensures
            c == self.spec_char(),
    {
        match self.state {
            CellState::Hidden => '\u{25A1}',
            CellState::Marked => 'F',
            CellState::Visible => match self.category {
                CellCategory::Mine => 'M',
                CellCategory::Empty(None) => '\u{25A0}',
                CellCategory::Empty(Some(n)) => (('0' as u8) + n) as char,
            },
        }
    }
}

/// A board shape: square of a side, or a rectangle of width and height.
#[derive(Debug, PartialEq, Eq, Copy, Clone, Structural)]
pub enum Dim {
    Square(usize),
    Rect(usize, usize),
}

impl Dim {
    pub open spec fn spec_w(self) -> usize {
        match self {
            Dim::Square(n) => n,
            Dim::Rect(n, _) => n,
        }
    }

    pub open spec fn spec_h(self) -> usize {
        match self {
            Dim::Square(n) => n,
            Dim::Rect(_, n) => n,
        }
    }

    /// Width of the shape.
    pub fn w(&self) -> (r: usize)
        ensures
            r == self.spec_w(),
    {
        match self {
            Dim::Square(n) => *n,
            Dim::Rect(n, _) => *n,
        }
    }

    /// Height of the shape.
    pub fn h(&self) -> (r: usize)
        ensures
            r == self.spec_h(),
    {
        match self {
            Dim::Square(n) => *n,
            Dim::Rect(_, n) => *n,
        }
    }
}

/// Two distinct locations within a king's move of one another.
pub open spec fn adjacent(a: (usize, usize), b: (usize, usize)) -> bool {
    &&& a != b
    &&& -1 <= a.0 - b.0 <= 1
    &&& -1 <= a.1 - b.1 <= 1
}

/// The rank, in the scan order of `surroundings_of`, of a neighbour `p` of
/// `loc`: offsets are visited row by row, left to right.
pub open spec fn nbr_index(loc: (usize, usize), p: (usize, usize)) -> int {
    3 * (p.1 - loc.1 + 1) + (p.0 - loc.0 + 1)
}

/// The playing field.  `cells[row][col]` is addressed by locations `(col, row)`.
pub struct Board {
    pub cells: Vec<Vec<Cell>>,
    dims: (usize, usize),
}

impl Board {
    pub closed spec fn spec_w(self) -> usize {
        self.dims.0
    }

    pub closed spec fn spec_h(self) -> usize {
        self.dims.1
    }

    /// The stored dimensions match the cell grid, the grid is rectangular and
    /// it fits in memory.
    pub closed spec fn wf_shape(self) -> bool {
        &&& self.cells@.len() == self.dims.1
        &&& forall|r: int|
            0 <= r < self.cells@.len() ==> (#[trigger] self.cells@[r])@.len() == self.dims.0
        &&& self.dims.0 * self.dims.1 <= usize::MAX
    }

    /// A well-shaped grid whose every cell carries a plausible number.
    pub open spec fn wf(self) -> bool {
        &&& self.wf_shape()
        &&& forall|p: (usize, usize)| self.in_bounds(p) ==> (#[trigger] self.cell_at(p)).wf()
    }

    /// A well-shaped board's cell count fits the machine's word.
    pub proof fn lemma_wf_shape_area(self)
        requires
            self.wf_shape(),
        ensures
            self.spec_w() * self.spec_h() <= usize::MAX,
    {
    }

    /// The location lies on the board.
    pub open spec fn in_bounds(self, loc: (usize, usize)) -> bool {
        loc.0 < self.spec_w() && loc.1 < self.spec_h()
    }

    /// The cell at a location `(col, row)`.
    pub closed spec fn cell_at(self, loc: (usize, usize)) -> Cell {
        self.cells@[loc.1 as int]@[loc.0 as int]
    }

    /// The location lies on the board (run-time test).
    pub fn is_loc(&self, point: (usize, usize)) -> (r: bool)
        ensures
            r == self.in_bounds(point),
    {
        let (x, y) = point;
        x < self.dims.0 && y < self.dims.1
    }

    /// Board width.
    pub fn w(&self) -> (r: usize)
        ensures
            r == self.spec_w(),
    {
        self.dims.0
    }

    /// Board height.
    pub fn h(&self) -> (r: usize)
        ensures
            r == self.spec_h(),
    {
        self.dims.1
    }

    /// The cell at an on-board location.
    pub fn cell(&self, loc: (usize, usize)) -> (c: Cell)
        requires
            self.wf_shape(),
            self.in_bounds(loc),
        ensures
            c == self.cell_at(loc),
    {
        self.cells[loc.1][loc.0]
    }

    /// Replace the cell at an on-board location.
    fn set_cell(&mut self, loc: (usize, usize), c: Cell)
        requires
            old(self).wf_shape(),
            old(self).in_bounds(loc),
        ensures
            final(self).wf_shape(),
            final(self).spec_w() == old(self).spec_w(),
            final(self).spec_h() == old(self).spec_h(),
            final(self).cell_at(loc) == c,
            forall|q: (usize, usize)|
                final(self).in_bounds(q) && q != loc ==> final(self).cell_at(q) == old(self).cell_at(
                    q,
                ),
    {
        self.cells[loc.1][loc.0] = c;
    }

    /// The at most eight on-board neighbours of a location.
    pub fn surroundings_of(&self, loc: (usize, usize)) -> (r: Vec<(usize, usize)>)
        requires
            self.in_bounds(loc),
        ensures
            r@.no_duplicates(),
            forall|p: (usize, usize)|
                #[trigger] r@.contains(p) <==> (self.in_bounds(p) && adjacent(loc, p)),
            r@.len() <= 8,
    {
        let (x, y) = loc;
        let (w, h) = self.dims;
        let mut v: Vec<(usize, usize)> = Vec::new();
        let mut k: usize = 0;
        while k < 9
            invariant
                self.in_bounds(loc),
                x == loc.0,
                y == loc.1,
                w == self.spec_w(),
                h == self.spec_h(),
                k <= 9,
                v@.len() <= if k <= 4 {
                    k as int
                } else {
                    k - 1
                },
                v@.no_duplicates(),
                forall|p: (usize, usize)|
                    #[trigger] v@.contains(p) <==> (self.in_bounds(p) && adjacent(loc, p)
                        && nbr_index(loc, p) < k),
            decreases 9 - k,
        {
            let dx = k % 3;
            let dy = k / 3;
            if k != 4 {
                let ok_x = if dx == 0 {
                    x > 0
                } else if dx == 2 {
                    x + 1 < w
                } else {
                    true
                };
                let ok_y = if dy == 0 {
                    y > 0
                } else if dy == 2 {
                    y + 1 < h
                } else {
                    true
                };
                if ok_x && ok_y {
                    let nx = if dx == 0 {
                        x - 1
                    } else if dx == 2 {
                        x + 1
                    } else {
                        x
                    };
                    let ny = if dy == 0 {
                        y - 1
                    } else if dy == 2 {
                        y + 1
                    } else {
                        y
                    };
                    proof {
                        assert(nbr_index(loc, (nx, ny)) == k);
                        assert(!v@.contains((nx, ny)));
                    }
                    v.push((nx, ny));
                    proof {
                        assert forall|p: (usize, usize)|
                            self.in_bounds(p) && adjacent(loc, p) && nbr_index(loc, p) == k
                                implies p == (nx, ny) by {
                            assert(p.0 == nx && p.1 == ny);
                        }
                    }
                } else {
                    proof {
                        assert forall|p: (usize, usize)|
                            self.in_bounds(p) && adjacent(loc, p) implies nbr_index(loc, p) != k
                            by {
                            if nbr_index(loc, p) == k {
                                assert(p.1 - loc.1 + 1 == dy && p.0 - loc.0 + 1 == dx);
                            }
                        }
                    }
                }
            } else {
                proof {
                    assert forall|p: (usize, usize)|
                        self.in_bounds(p) && adjacent(loc, p) implies nbr_index(loc, p) != 4 by {
                        if nbr_index(loc, p) == 4 {
                            assert(p.1 - loc.1 + 1 == 1 && p.0 - loc.0 + 1 == 1);
                            assert(p == loc);
                        }
                    }
                }
            }
            k += 1;
        }
        v
    }
}

// Construction.
impl Board {
    /// The on-board neighbours of `loc` that hold mines.
    pub open spec fn mine_nbr_set(self, loc: (usize, usize)) -> Set<(usize, usize)> {
        Set::new(
            |p: (usize, usize)|
                self.in_bounds(p) && adjacent(loc, p) && self.cell_at(p).is_mine_cell(),
        )
    }

    /// Every cell shown as empty with no number really has no mine next to it.
    pub open spec fn zero_cells_clear(self) -> bool {
        forall|p: (usize, usize)|
            self.in_bounds(p) && (#[trigger] self.cell_at(p)).category == CellCategory::Empty(
                None::<u8>,
            ) ==> self.mine_nbr_set(p).is_empty()
    }

    /// Count the mines adjacent to a location.
    fn count_mine_nbrs(&self, loc: (usize, usize)) -> (n: u8)
        requires
            self.wf_shape(),
            self.in_bounds(loc),
        ensures
            self.mine_nbr_set(loc).finite(),
            n == self.mine_nbr_set(loc).len(),
            n <= 8,
    {
        let nbrs = self.surroundings_of(loc);
        let mut n: u8 = 0;
        let ghost mut seen: Set<(usize, usize)> = Set::empty();
        let mut i: usize = 0;
        while i < nbrs.len()
            invariant
                self.wf_shape(),
                self.in_bounds(loc),
                i <= nbrs@.len(),
                nbrs@.len() <= 8,
                nbrs@.no_duplicates(),
                forall|p: (usize, usize)|
                    #[trigger] nbrs@.contains(p) <==> (self.in_bounds(p) && adjacent(loc, p)),
                seen.finite(),
                n == seen.len(),
                n <= i,
                seen == Set::new(
                    |p: (usize, usize)|
                        nbrs@.take(i as int).contains(p) && self.cell_at(p).is_mine_cell(),
                ),
            decreases nbrs@.len() - i,
        {
            let p = nbrs[i];
            proof {
                assert(nbrs@.contains(p));
                if nbrs@.take(i as int).contains(p) {
                    let j = choose|j: int|
                        0 <= j < i && nbrs@.take(i as int)[j] == p;
                    assert(nbrs@[j] == nbrs@[i as int]);
                    assert(false);
                }
            }
            let c = self.cell(p);
            if c.is_mine() {
                n += 1;
                proof {
                    assert(!seen.contains(p));
                    seen = seen.insert(p);
                }
            }
            proof {
                assert(nbrs@.take(i + 1) =~= nbrs@.take(i as int).push(p));
                assert(seen =~= Set::new(
                    |q: (usize, usize)|
                        nbrs@.take(i + 1).contains(q) && self.cell_at(q).is_mine_cell(),
                ));
            }
            i += 1;
        }
        proof {
            assert(nbrs@.take(nbrs@.len() as int) =~= nbrs@);
            assert(seen =~= self.mine_nbr_set(loc));
        }
        n
    }

    /// Derive a playable board from a grid of cells: every empty cell next to
    /// at least one mine receives the count of its mined neighbours; all other
    /// cells are kept as given.
    pub fn from_cells(cells: Vec<Vec<Cell>>) -> (r: Result<Board, ()>)
        requires
            forall|i: int|
                0 <= i < cells@.len() ==> (#[trigger] cells@[i])@.len() == cells@[0]@.len(),
            cells@.len() == 0 || cells@[0]@.len() * cells@.len() <= usize::MAX,
            forall|i: int, j: int|
                0 <= i < cells@.len() && 0 <= j < cells@[i]@.len() ==> (
                #[trigger] cells@[i]@[j]).wf(),
        ensures
            r is Ok,
            ({
                let b = r->Ok_0;
                &&& b.wf()
                &&& b.zero_cells_clear()
                &&& b.spec_h() == cells@.len()
                &&& b.spec_w() == if cells@.len() == 0 {
                    0
                } else {
                    cells@[0]@.len() as int
                }
                &&& forall|p: (usize, usize)|
                    #[trigger] b.in_bounds(p) ==> {
                        let oldc = cells@[p.1 as int]@[p.0 as int];
                        let newc = b.cell_at(p);
                        &&& newc.state == oldc.state
                        &&& newc.scratch == oldc.scratch
                        &&& newc.is_mine_cell() == oldc.is_mine_cell()
                        &&& (oldc.is_mine_cell() ==> newc == oldc)
                        &&& (!oldc.is_mine_cell() && b.mine_nbr_set(p).len() == 0 ==> newc == oldc)
                        &&& (!oldc.is_mine_cell() && b.mine_nbr_set(p).len() > 0
                            ==> newc.category == CellCategory::Empty(
                            Some(b.mine_nbr_set(p).len() as u8),
                        ))
                    }
            }),
    {
        let ghost grid = cells@;
        let h = cells.len();
        let w = if h == 0 {
            0
        } else {
            cells[0].len()
        };
        let mut board = Board { cells, dims: (w, h) };
        let ghost orig = board;
        let mut row: usize = 0;
        while row < h
            invariant
                board.wf_shape(),
                board.spec_w() == w,
                board.spec_h() == h,
                row <= h,
                orig.wf_shape(),
                orig.spec_w() == w,
                orig.spec_h() == h,
                orig.cells@ == grid,
                forall|i: int, j: int|
                    0 <= i < h && 0 <= j < w ==> (#[trigger] orig.cells@[i]@[j]).wf(),
                forall|p: (usize, usize)|
                    board.in_bounds(p) ==> #[trigger] mirror_at(orig, board, p),
                forall|p: (usize, usize)|
                    board.in_bounds(p) && p.1 < row ==> #[trigger] numbered_at(orig, board, p),
                forall|p: (usize, usize)|
                    board.in_bounds(p) && p.1 >= row ==> #[trigger] same_at(orig, board, p),
            decreases h - row,
        {
            let mut col: usize = 0;
            while col < w
                invariant
                    board.wf_shape(),
                    board.spec_w() == w,
                    board.spec_h() == h,
                    row < h,
                    col <= w,
                    orig.wf_shape(),
                    orig.spec_w() == w,
                    orig.spec_h() == h,
                    orig.cells@ == grid,
                    forall|i: int, j: int|
                        0 <= i < h && 0 <= j < w ==> (#[trigger] orig.cells@[i]@[j]).wf(),
                    forall|p: (usize, usize)|
                        board.in_bounds(p) ==> #[trigger] mirror_at(orig, board, p),
                    forall|p: (usize, usize)|
                        board.in_bounds(p) && (p.1 < row || (p.1 == row && p.0 < col))
                            ==> #[trigger] numbered_at(orig, board, p),
                    forall|p: (usize, usize)|
                        board.in_bounds(p) && (p.1 > row || (p.1 == row && p.0 >= col))
                            ==> #[trigger] same_at(orig, board, p),
                decreases w - col,
            {
                let loc = (col, row);
                let c = board.cell(loc);
                proof {
                    assert(same_at(orig, board, loc));
                }
                if !c.is_mine() {
                    let n = board.count_mine_nbrs(loc);
                    if n > 0 {
                        let mut c2 = c;
                        c2.category = CellCategory::Empty(Some(n));
                        let ghost before = board;
                        board.set_cell(loc, c2);
                        proof {
                            assert forall|q: (usize, usize)| board.in_bounds(q) implies (
                            #[trigger] board.mine_nbr_set(q)) == before.mine_nbr_set(q) by {
                                assert forall|t: (usize, usize)|
                                    board.mine_nbr_set(q).contains(t) == before.mine_nbr_set(
                                        q,
                                    ).contains(t) by {
                                    if board.in_bounds(t) && t != loc {
                                        assert(board.cell_at(t) == before.cell_at(t));
                                    }
                                }
                                assert(board.mine_nbr_set(q) =~= before.mine_nbr_set(q));
                            }
                            assert forall|p: (usize, usize)| board.in_bounds(p) implies
                                #[trigger] mirror_at(orig, board, p) by {
                                if p != loc {
                                    assert(board.cell_at(p) == before.cell_at(p));
                                    assert(mirror_at(orig, before, p));
                                } else {
                                    assert(board.cell_at(loc) == c2);
                                    assert(mirror_at(orig, before, loc));
                                }
                            }
                            assert(board.mine_nbr_set(loc) == before.mine_nbr_set(loc));
                            assert(numbered_at(orig, board, loc));
                            assert forall|p: (usize, usize)|
                                board.in_bounds(p) && (p.1 < row || (p.1 == row && p.0 < col + 1))
                                    implies #[trigger] numbered_at(orig, board, p) by {
                                if p != loc {
                                    assert(numbered_at(orig, before, p));
                                    assert(board.cell_at(p) == before.cell_at(p));
                                    assert(board.mine_nbr_set(p) == before.mine_nbr_set(p));
                                }
                            }
                            assert forall|p: (usize, usize)|
                                board.in_bounds(p) && (p.1 > row || (p.1 == row && p.0 >= col + 1))
                                    implies #[trigger] same_at(orig, board, p) by {
                                assert(p != loc);
                                assert(board.cell_at(p) == before.cell_at(p));
                                assert(same_at(orig, before, p));
                            }
                        }
                    } else {
                        proof {
                            assert(numbered_at(orig, board, loc));
                            assert forall|p: (usize, usize)|
                                board.in_bounds(p) && (p.1 < row || (p.1 == row && p.0 < col + 1))
                                    implies #[trigger] numbered_at(orig, board, p) by {
                                if p != loc {
                                    assert(numbered_at(orig, board, p));
                                }
                            }
                        }
                    }
                } else {
                    proof {
                        assert(numbered_at(orig, board, loc));
                        assert forall|p: (usize, usize)|
                            board.in_bounds(p) && (p.1 < row || (p.1 == row && p.0 < col + 1))
                                implies #[trigger] numbered_at(orig, board, p) by {
                            if p != loc {
                                assert(numbered_at(orig, board, p));
                            }
                        }
                    }
                }
                col += 1;
            }
            row += 1;
        }
        proof {
            assert forall|p: (usize, usize)| #[trigger] board.in_bounds(p) implies board.cell_at(
                p,
            ).wf() by {
                assert(numbered_at(orig, board, p));
                assert(orig.cell_at(p) == orig.cells@[p.1 as int]@[p.0 as int]);
                assert(orig.cell_at(p).wf());
                if !orig.cell_at(p).is_mine_cell() && board.mine_nbr_set(p).len() > 0 {
                    lemma_mine_nbr_set_small(board, p);
                }
            }
            assert forall|p: (usize, usize)|
                board.in_bounds(p) && (#[trigger] board.cell_at(p)).category
                    == CellCategory::Empty(None::<u8>) implies board.mine_nbr_set(p).is_empty() by {
                assert(numbered_at(orig, board, p));
                lemma_mine_nbr_set_small(board, p);
                if !board.mine_nbr_set(p).is_empty() {
                    assert(board.mine_nbr_set(p).len() > 0) by {
                        if board.mine_nbr_set(p).len() == 0 {
                            board.mine_nbr_set(p).lemma_len0_is_empty();
                        }
                    }
                    assert(orig.cell_at(p).is_mine_cell() || board.cell_at(p).category
                        == CellCategory::Empty(Some(board.mine_nbr_set(p).len() as u8)));
                    assert(false);
                }
            }
            assert forall|p: (usize, usize)| #[trigger] board.in_bounds(p) implies {
                let oldc = grid[p.1 as int]@[p.0 as int];
                let newc = board.cell_at(p);
                &&& newc.state == oldc.state
                &&& newc.scratch == oldc.scratch
                &&& newc.is_mine_cell() == oldc.is_mine_cell()
                &&& (oldc.is_mine_cell() ==> newc == oldc)
                &&& (!oldc.is_mine_cell() && board.mine_nbr_set(p).len() == 0 ==> newc == oldc)
                &&& (!oldc.is_mine_cell() && board.mine_nbr_set(p).len() > 0 ==> newc.category
                    == CellCategory::Empty(Some(board.mine_nbr_set(p).len() as u8)))
            } by {
                assert(numbered_at(orig, board, p));
                assert(mirror_at(orig, board, p));
                assert(orig.cell_at(p) == grid[p.1 as int]@[p.0 as int]);
            }
        }
        Ok(board)
    }
}

/// The cell every board starts from: hidden, empty, scratch bit clear.
pub open spec fn blank_cell() -> Cell {
    Cell { state: CellState::Hidden, category: CellCategory::Empty(None::<u8>), scratch: false }
}

/// A `w` by `h` grid of blank cells.
fn blank_grid(w: usize, h: usize) -> (g: Vec<Vec<Cell>>)
    ensures
        g@.len() == h,
        forall|i: int| 0 <= i < h ==> (#[trigger] g@[i])@.len() == w,
        forall|i: int, j: int| 0 <= i < h && 0 <= j < w ==> (#[trigger] g@[i]@[j]) == blank_cell(),
{
    let mut g: Vec<Vec<Cell>> = Vec::new();
    while g.len() < h
        invariant
            g@.len() <= h,
            forall|i: int| 0 <= i < g@.len() ==> (#[trigger] g@[i])@.len() == w,
            forall|i: int, j: int|
                0 <= i < g@.len() && 0 <= j < w ==> (#[trigger] g@[i]@[j]) == blank_cell(),
        decreases h - g@.len(),
    {
        let mut rowv: Vec<Cell> = Vec::new();
        while rowv.len() < w
            invariant
                rowv@.len() <= w,
                forall|j: int| 0 <= j < rowv@.len() ==> (#[trigger] rowv@[j]) == blank_cell(),
            decreases w - rowv@.len(),
        {
            rowv.push(
                Cell {
                    state: CellState::Hidden,
                    category: CellCategory::Empty(None),
                    scratch: false,
                },
            );
        }
        g.push(rowv);
    }
    g
}

// Boards with mines placed.
impl Board {
    /// A fully hidden board of the given shape whose mines sit exactly at the
    /// given locations.
    pub fn new_fixed(dim: Dim, locs: Vec<(usize, usize)>) -> (r: Result<Board, ()>)
        requires
            dim.spec_w() * dim.spec_h() <= usize::MAX,
            forall|i: int|
                0 <= i < locs@.len() ==> (#[trigger] locs@[i]).0 < dim.spec_w() && locs@[i].1
                    < dim.spec_h(),
        ensures
            r is Ok,
            ({
                let b = r->Ok_0;
                &&& b.wf()
                &&& b.zero_cells_clear()
                &&& b.spec_h() == dim.spec_h()
                &&& b.spec_w() == if dim.spec_h() == 0 {
                    0
                } else {
                    dim.spec_w() as int
                }
                &&& forall|p: (usize, usize)|
                    #[trigger] b.in_bounds(p) ==> {
                        &&& b.cell_at(p).is_mine_cell() == locs@.contains(p)
                        &&& b.cell_at(p).state == CellState::Hidden
                        &&& !b.cell_at(p).scratch
                        &&& (!locs@.contains(p) && b.mine_nbr_set(p).len() == 0 ==> b.cell_at(
                            p,
                        ).category == CellCategory::Empty(None::<u8>))
                        &&& (!locs@.contains(p) && b.mine_nbr_set(p).len() > 0 ==> b.cell_at(
                            p,
                        ).category == CellCategory::Empty(Some(b.mine_nbr_set(p).len() as u8)))
                    }
            }),
    {
        let w = dim.w();
        let h = dim.h();
        let mut grid = blank_grid(w, h);
        let mut i: usize = 0;
        while i < locs.len()
            invariant
                grid@.len() == h,
                forall|ri: int| 0 <= ri < h ==> (#[trigger] grid@[ri])@.len() == w,
                i <= locs@.len(),
                forall|k: int|
                    0 <= k < locs@.len() ==> (#[trigger] locs@[k]).0 < w && locs@[k].1 < h,
                forall|p: (usize, usize)|
                    p.0 < w && p.1 < h ==> (#[trigger] grid@[p.1 as int]@[p.0 as int]) == if locs@
                        .take(i as int).contains(p) {
                        mine_cell()
                    } else {
                        blank_cell()
                    },
            decreases locs@.len() - i,
        {
            let (x, y) = locs[i];
            let mut c = grid[y][x];
            c.category = CellCategory::Mine;
            let ghost gprev = grid@;
            grid[y][x] = c;
            proof {
                assert(locs@.take(i + 1) =~= locs@.take(i as int).push((x, y)));
                assert(c == mine_cell());
                assert forall|p: (usize, usize)| p.0 < w && p.1 < h implies (
                #[trigger] grid@[p.1 as int]@[p.0 as int]) == if locs@.take(i + 1).contains(p) {
                    mine_cell()
                } else {
                    blank_cell()
                } by {
                    if p == (x, y) {
                        assert(grid@[p.1 as int]@[p.0 as int] == c);
                    } else {
                        if p.1 == y {
                            assert(grid@[p.1 as int]@[p.0 as int] == gprev[p.1 as int]@[p.0 as int]);
                        } else {
                            assert(grid@[p.1 as int] == gprev[p.1 as int]);
                        }
                    }
                }
            }
            i += 1;
        }
        proof {
            assert(locs@.take(locs@.len() as int) =~= locs@);
            assert forall|ri: int, j: int|
                0 <= ri < grid@.len() && 0 <= j < grid@[ri]@.len() implies (
            #[trigger] grid@[ri]@[j]).wf() by {
                let p = (j as usize, ri as usize);
                assert(grid@[p.1 as int]@[p.0 as int] == if locs@.contains(p) {
                    mine_cell()
                } else {
                    blank_cell()
                });
            }
        }
        Board::from_cells(grid)
    }

    /// A board of the given shape with `num_mines` mines placed by the
    /// Xoshiro256++ generator grown from `seed`.  Mine locations may repeat,
    /// so the board carries at most `num_mines` mines.
    pub fn new_seeded(dim: Dim, num_mines: u64, seed: [u8; 32]) -> (r: Result<Board, ()>)
        requires
            1 <= dim.spec_w(),
            1 <= dim.spec_h(),
            dim.spec_w() * dim.spec_h() <= usize::MAX,
            num_mines <= usize::MAX,
        ensures
            r is Ok,
            ({
                let b = r->Ok_0;
                &&& b.wf()
                &&& b.zero_cells_clear()
                &&& b.spec_w() == dim.spec_w()
                &&& b.spec_h() == dim.spec_h()
                &&& forall|p: (usize, usize)|
                    #[trigger] b.in_bounds(p) ==> b.cell_at(p).state == CellState::Hidden
            }),
    {
        let mut root = crate::rng::xo_from_seed(seed);
        let s0 = crate::rng::xo_next_seed(&mut root);
        let s1 = crate::rng::xo_next_seed(&mut root);
        let mut x_rng = crate::rng::xo_from_seed(s0);
        let mut y_rng = crate::rng::xo_from_seed(s1);
        let w = dim.w();
        let h = dim.h();
        let n = num_mines as usize;
        let mut locs: Vec<(usize, usize)> = Vec::new();
        let mut i: usize = 0;
        while i < n
            invariant
                w == dim.spec_w(),
                h == dim.spec_h(),
                w >= 1,
                h >= 1,
                forall|k: int| 0 <= k < locs@.len() ==> (#[trigger] locs@[k]).0 < w && locs@[k].1 < h,
            decreases n - i,
        {
            let x = crate::rng::xo_below(&mut x_rng, w);
            let y = crate::rng::xo_below(&mut y_rng, h);
            locs.push((x, y));
            i += 1;
        }
        Board::new_fixed(dim, locs)
    }

    /// A board of the given shape with `num_mines` mines placed from the
    /// operating system's entropy; fails only if no entropy can be read.
    pub fn new(dim: Dim, num_mines: u64) -> (r: Result<Board, ()>)
        requires
            1 <= dim.spec_w(),
            1 <= dim.spec_h(),
            dim.spec_w() * dim.spec_h() <= usize::MAX,
            num_mines <= usize::MAX,
        ensures
            r is Ok ==> ({
                let b = r->Ok_0;
                &&& b.wf()
                &&& b.zero_cells_clear()
                &&& b.spec_w() == dim.spec_w()
                &&& b.spec_h() == dim.spec_h()
            }),
    {
        match crate::rng::os_seed() {
            Some(seed) => Board::new_seeded(dim, num_mines, seed),
            None => Err(()),
        }
    }

    /// The classic nine-by-nine board with ten mines.
    pub fn beginner() -> (r: Result<Board, ()>)
        ensures
            r is Ok ==> (r->Ok_0).wf() && (r->Ok_0).zero_cells_clear(),
    {
        Board::new(Dim::Square(9), 10)
    }

    /// The classic sixteen-by-sixteen board with forty mines.
    pub fn intermediate() -> (r: Result<Board, ()>)
        ensures
            r is Ok ==> (r->Ok_0).wf() && (r->Ok_0).zero_cells_clear(),
    {
        Board::new(Dim::Square(16), 40)
    }

    /// The classic thirty-by-sixteen board with ninety-nine mines.
    pub fn advanced() -> (r: Result<Board, ()>)
        ensures
            r is Ok ==> (r->Ok_0).wf() && (r->Ok_0).zero_cells_clear(),
    {
        Board::new(Dim::Rect(30, 16), 99)
    }

    /// Rebuild a board from its saved byte form: one row per line, a space
    /// for revealed ground, `x` for a hidden mine, `H` for a hidden empty
    /// cell.  Any other byte, or rows of unequal length, fail the parse.  On
    /// success, the cell at `(col, row)` is derived, with its count filled
    /// in, from the byte at `row * (width + 1) + col`.
    pub fn from_save(cells: &[u8]) -> (r: Result<Board, ()>)
        ensures
            r is Ok ==> ({
                let b = r->Ok_0;
                &&& b.wf()
                &&& b.zero_cells_clear()
                &&& forall|p: (usize, usize)|
                    #[trigger] b.in_bounds(p) ==> {
                        &&& !b.cell_at(p).scratch
                        &&& (b.cell_at(p).is_visible() ==> !b.cell_at(p).is_mine_cell())
                        &&& (b.cell_at(p).is_visible() || b.cell_at(p).is_hidden_unmarked())
                    }
                &&& forall|p: (usize, usize)|
                    #[trigger] b.in_bounds(p) ==> {
                        let idx = p.1 * (b.spec_w() + 1) + p.0;
                        &&& 0 <= idx < cells@.len()
                        &&& byte_cell(cells@[idx]) is Some
                        &&& cell_rule(
                            byte_cell(cells@[idx])->Some_0,
                            b.cell_at(p),
                            b.mine_nbr_set(p).len(),
                        )
                    }
                &&& (b.spec_h() == 0 <==> cells@.len() == 0)
                &&& (b.spec_h() > 0 ==> b.spec_h() * (b.spec_w() + 1) == cells@.len()
                    || b.spec_h() * (b.spec_w() + 1) == cells@.len() + 1)
            }),
    {
        let mut rows: Vec<Vec<Cell>> = Vec::new();
        let mut rowv: Vec<Cell> = Vec::new();
        let ghost mut starts: Seq<int> = Seq::empty();
        let ghost mut cur_start: int = 0;
        let mut i: usize = 0;
        while i < cells.len()
            invariant
                i <= cells@.len(),
                forall|ri: int, j: int|
                    0 <= ri < rows@.len() && 0 <= j < rows@[ri]@.len() ==> save_cell_ok(
                        #[trigger] rows@[ri]@[j],
                    ),
                forall|j: int| 0 <= j < rowv@.len() ==> save_cell_ok(#[trigger] rowv@[j]),
                starts.len() == rows@.len(),
                rows@.len() == 0 ==> cur_start == 0,
                rows@.len() > 0 ==> starts[0] == 0,
                rows@.len() > 0 ==> cur_start == starts.last() + rows@.last()@.len() + 1,
                forall|ri: int|
                    1 <= ri < rows@.len() ==> #[trigger] starts[ri] == starts[ri - 1]
                        + rows@[ri - 1]@.len() + 1,
                forall|ri: int|
                    0 <= ri < rows@.len() ==> 0 <= #[trigger] starts[ri] && starts[ri]
                        + rows@[ri]@.len() < i,
                cur_start + rowv@.len() == i,
                forall|ri: int, j: int|
                    0 <= ri < rows@.len() && 0 <= j < rows@[ri]@.len() ==> byte_cell(
                        cells@[starts[ri] + j],
                    ) == Some(#[trigger] rows@[ri]@[j]),
                forall|j: int|
                    0 <= j < rowv@.len() ==> byte_cell(cells@[cur_start + j]) == Some(
                        #[trigger] rowv@[j],
                    ),
                i > 0 ==> rows@.len() > 0 || rowv@.len() > 0,
            decreases cells@.len() - i,
        {
            let b = cells[i];
            if b == 10u8 {
                let ghost rows0 = rows@;
                rows.push(rowv);
                rowv = Vec::new();
                proof {
                    starts = starts.push(cur_start);
                    cur_start = i + 1;
                }
            } else if b == 32u8 {
                rowv.push(
                    Cell {
                        state: CellState::Visible,
                        category: CellCategory::Empty(None),
                        scratch: false,
                    },
                );
            } else if b == 120u8 {
                rowv.push(
                    Cell { state: CellState::Hidden, category: CellCategory::Mine, scratch: false },
                );
            } else if b == 72u8 {
                rowv.push(
                    Cell {
                        state: CellState::Hidden,
                        category: CellCategory::Empty(None),
                        scratch: false,
                    },
                );
            } else {
                return Err(());
            }
            i += 1;
        }
        if rowv.len() > 0 {
            rows.push(rowv);
            proof {
                starts = starts.push(cur_start);
            }
        }
        proof {
            assert(forall|ri: int|
                0 <= ri < rows@.len() ==> 0 <= #[trigger] starts[ri] && starts[ri]
                    + rows@[ri]@.len() <= cells@.len());
            assert(cells@.len() > 0 ==> rows@.len() > 0);
            if rows@.len() > 0 {
                assert(starts.last() + rows@.last()@.len() == cells@.len() || starts.last()
                    + rows@.last()@.len() + 1 == cells@.len());
            }
        }
        let h = rows.len();
        if h == 0 {
            proof {
                assert(cells@.len() == 0);
            }
            return Board::from_cells(rows);
        }
        let w = rows[0].len();
        let mut ri: usize = 1;
        proof {
            assert(starts[0] == 0);
            assert(0int * (w + 1) == 0) by (nonlinear_arith);
            assert(starts[0] == 0int * (w + 1));
        }
        while ri < h
            invariant
                1 <= ri <= h,
                h == rows@.len(),
                w == rows@[0]@.len(),
                starts.len() == h,
                starts[0] == 0,
                forall|k: int| 0 <= k < ri ==> (#[trigger] rows@[k])@.len() == w,
                forall|k: int| 0 <= k < ri ==> #[trigger] starts[k] == k * (w + 1),
                forall|k: int, j: int|
                    0 <= k < rows@.len() && 0 <= j < rows@[k]@.len() ==> save_cell_ok(
                        #[trigger] rows@[k]@[j],
                    ),
                forall|k: int|
                    1 <= k < rows@.len() ==> #[trigger] starts[k] == starts[k - 1]
                        + rows@[k - 1]@.len() + 1,
                forall|k: int|
                    0 <= k < rows@.len() ==> 0 <= #[trigger] starts[k] && starts[k]
                        + rows@[k]@.len() <= cells@.len(),
                forall|k: int, j: int|
                    0 <= k < rows@.len() && 0 <= j < rows@[k]@.len() ==> byte_cell(
                        cells@[starts[k] + j],
                    ) == Some(#[trigger] rows@[k]@[j]),
            decreases h - ri,
        {
            if rows[ri].len() != w {
                return Err(());
            }
            proof {
                assert(starts[ri - 1] == (ri - 1) * (w + 1));
                assert(starts[ri as int] == starts[ri - 1] + rows@[ri - 1]@.len() + 1);
                assert(rows@[ri - 1]@.len() == w);
                assert((ri - 1) * (w + 1) + (w + 1) == ri * (w + 1)) by (nonlinear_arith);
                assert(starts[ri as int] == ri * (w + 1));
            }
            ri += 1;
        }
        if w.checked_mul(h).is_none() {
            return Err(());
        }
        let b = Board::from_cells(rows);
        proof {
            let bb = b->Ok_0;
            assert forall|p: (usize, usize)| #[trigger] bb.in_bounds(p) implies {
                &&& !bb.cell_at(p).scratch
                &&& (bb.cell_at(p).is_visible() ==> !bb.cell_at(p).is_mine_cell())
                &&& (bb.cell_at(p).is_visible() || bb.cell_at(p).is_hidden_unmarked())
            } by {
                assert(save_cell_ok(rows@[p.1 as int]@[p.0 as int]));
            }
            assert(starts[h - 1] == (h - 1) * (w + 1));
            assert(rows@[h - 1]@.len() == w);
            assert((h - 1) * (w + 1) + w + 1 == h * (w + 1)) by (nonlinear_arith);
            assert(bb.spec_h() * (bb.spec_w() + 1) == cells@.len() || bb.spec_h() * (bb.spec_w()
                + 1) == cells@.len() + 1);
            assert forall|p: (usize, usize)| #[trigger] bb.in_bounds(p) implies {
                let idx = p.1 * (bb.spec_w() + 1) + p.0;
                &&& 0 <= idx < cells@.len()
                &&& byte_cell(cells@[idx]) is Some
                &&& cell_rule(
                    byte_cell(cells@[idx])->Some_0,
                    bb.cell_at(p),
                    bb.mine_nbr_set(p).len(),
                )
            } by {
                assert(starts[p.1 as int] == p.1 * (w + 1));
                assert(byte_cell(cells@[starts[p.1 as int] + p.0]) == Some(
                    rows@[p.1 as int]@[p.0 as int],
                ));
                assert(rows@[p.1 as int]@.len() == w);
            }
        }
        b
    }
}

/// The cell a saved-board byte stands for: a space is revealed ground, `x` a
/// hidden mine, `H` hidden ground; anything else is not a cell.
pub open spec fn byte_cell(b: u8) -> Option<Cell> {
    if b == 32 {
        Some(
            Cell {
                state: CellState::Visible,
                category: CellCategory::Empty(None::<u8>),
                scratch: false,
            },
        )
    } else if b == 120 {
        Some(Cell { state: CellState::Hidden, category: CellCategory::Mine, scratch: false })
    } else if b == 72 {
        Some(
            Cell {
                state: CellState::Hidden,
                category: CellCategory::Empty(None::<u8>),
                scratch: false,
            },
        )
    } else {
        None
    }
}

/// The cell forms a saved-board byte can stand for: revealed empty ground, a
/// hidden mine, or hidden empty ground.
pub open spec fn save_cell_ok(c: Cell) -> bool {
    ||| c == (Cell {
        state: CellState::Visible,
        category: CellCategory::Empty(None::<u8>),
        scratch: false,
    })
    ||| c == (Cell { state: CellState::Hidden, category: CellCategory::Mine, scratch: false })
    ||| c == (Cell {
        state: CellState::Hidden,
        category: CellCategory::Empty(None::<u8>),
        scratch: false,
    })
}

/// A cell holding a hidden, unmarked mine.
pub open spec fn mine_cell() -> Cell {
    Cell { state: CellState::Hidden, category: CellCategory::Mine, scratch: false }
}

/// `b` is `a` with some cells revealed: same shape, same categories, and no
/// state change except hidden cells becoming visible.
pub open spec fn reveal_only(a: Board, b: Board) -> bool {
    &&& b.wf_shape()
    &&& b.spec_w() == a.spec_w()
    &&& b.spec_h() == a.spec_h()
    &&& forall|p: (usize, usize)|
        a.in_bounds(p) ==> {
            &&& (#[trigger] b.cell_at(p)).category == a.cell_at(p).category
            &&& (a.cell_at(p).state != CellState::Hidden ==> b.cell_at(p).state == a.cell_at(
                p,
            ).state)
            &&& (a.cell_at(p).state == CellState::Hidden ==> b.cell_at(p).state
                == CellState::Hidden || b.cell_at(p).state == CellState::Visible)
        }
}

/// Every neighbour of `start` that carried no mark has been revealed.
pub open spec fn ring_revealed(a: Board, b: Board, start: (usize, usize)) -> bool {
    forall|p: (usize, usize)|
        a.in_bounds(p) && adjacent(start, p) && (#[trigger] a.cell_at(p)).state
            != CellState::Marked ==> b.cell_at(p).is_visible()
}

/// Revealing is transitive.
proof fn lemma_reveal_only_trans(a: Board, b: Board, c: Board)
    requires
        reveal_only(a, b),
        reveal_only(b, c),
    ensures
        reveal_only(a, c),
{
    assert forall|p: (usize, usize)| a.in_bounds(p) implies {
        &&& (#[trigger] c.cell_at(p)).category == a.cell_at(p).category
        &&& (a.cell_at(p).state != CellState::Hidden ==> c.cell_at(p).state == a.cell_at(p).state)
        &&& (a.cell_at(p).state == CellState::Hidden ==> c.cell_at(p).state == CellState::Hidden
            || c.cell_at(p).state == CellState::Visible)
    } by {
        assert(b.in_bounds(p));
        assert(b.cell_at(p).category == a.cell_at(p).category);
    }
}

/// Revealing one more unmarked cell is still only revealing.
proof fn lemma_reveal_only_set(orig: Board, mid: Board, fin: Board, loc: (usize, usize))
    requires
        reveal_only(orig, mid),
        fin.wf_shape(),
        fin.spec_w() == mid.spec_w(),
        fin.spec_h() == mid.spec_h(),
        mid.in_bounds(loc),
        mid.cell_at(loc).state != CellState::Marked,
        fin.cell_at(loc).category == mid.cell_at(loc).category,
        fin.cell_at(loc).state == CellState::Visible,
        forall|q: (usize, usize)|
            mid.in_bounds(q) && q != loc ==> fin.cell_at(q) == mid.cell_at(q),
    ensures
        reveal_only(orig, fin),
{
    assert forall|p: (usize, usize)| orig.in_bounds(p) implies {
        &&& (#[trigger] fin.cell_at(p)).category == orig.cell_at(p).category
        &&& (orig.cell_at(p).state != CellState::Hidden ==> fin.cell_at(p).state == orig.cell_at(
            p,
        ).state)
        &&& (orig.cell_at(p).state == CellState::Hidden ==> fin.cell_at(p).state
            == CellState::Hidden || fin.cell_at(p).state == CellState::Visible)
    } by {
        assert(mid.in_bounds(p));
        if p == loc {
            assert(mid.cell_at(p).state != CellState::Marked);
            assert(orig.cell_at(p).state != CellState::Marked);
        }
    }
}

/// The number of clear scratch bits in `row[0..j]`.
pub open spec fn unscratched_in_row(row: Seq<Cell>, j: int) -> int
    decreases j,
{
    if j <= 0 {
        0
    } else {
        unscratched_in_row(row, j - 1) + if !row[j - 1].scratch {
            1int
        } else {
            0int
        }
    }
}

/// The number of clear scratch bits in the first `i` full rows of the grid.
pub open spec fn unscratched_upto(g: Seq<Vec<Cell>>, i: int) -> int
    decreases i,
{
    if i <= 0 {
        0
    } else {
        unscratched_upto(g, i - 1) + unscratched_in_row(g[i - 1]@, g[i - 1]@.len() as int)
    }
}

proof fn lemma_unscratched_in_row_nonneg(row: Seq<Cell>, j: int)
    ensures
        unscratched_in_row(row, j) >= 0,
    decreases j,
{
    if j > 0 {
        lemma_unscratched_in_row_nonneg(row, j - 1);
    }
}

proof fn lemma_unscratched_upto_nonneg(g: Seq<Vec<Cell>>, i: int)
    ensures
        unscratched_upto(g, i) >= 0,
    decreases i,
{
    if i > 0 {
        lemma_unscratched_upto_nonneg(g, i - 1);
        lemma_unscratched_in_row_nonneg(g[i - 1]@, g[i - 1]@.len() as int);
    }
}

/// Updating one cell of a row changes the count of clear scratch bits by the
/// difference at that cell.
proof fn lemma_unscratched_in_row_update(row: Seq<Cell>, j: int, ci: int, c: Cell)
    requires
        0 <= ci < row.len(),
        j <= row.len(),
    ensures
        unscratched_in_row(row.update(ci, c), j) == unscratched_in_row(row, j) + if ci < j {
            (if !c.scratch {
                1int
            } else {
                0int
            }) - (if !row[ci].scratch {
                1int
            } else {
                0int
            })
        } else {
            0int
        },
    decreases j,
{
    if j > 0 {
        lemma_unscratched_in_row_update(row, j - 1, ci, c);
    }
}

/// Updating one cell of one row changes the grid count by the difference at
/// that cell.
proof fn lemma_unscratched_upto_update(g: Seq<Vec<Cell>>, i: int, ri: int, row2: Vec<Cell>, ci: int, c: Cell)
    requires
        0 <= ri < g.len(),
        0 <= ci < g[ri]@.len(),
        i <= g.len(),
        row2@ == g[ri]@.update(ci, c),
    ensures
        unscratched_upto(g.update(ri, row2), i) == unscratched_upto(g, i) + if ri < i {
            (if !c.scratch {
                1int
            } else {
                0int
            }) - (if !g[ri]@[ci].scratch {
                1int
            } else {
                0int
            })
        } else {
            0int
        },
    decreases i,
{
    if i > 0 {
        lemma_unscratched_upto_update(g, i - 1, ri, row2, ci, c);
        if ri == i - 1 {
            lemma_unscratched_in_row_update(g[ri]@, g[ri]@.len() as int, ci, c);
        }
    }
}

// Marking, digging, and stat checks.
impl Board {
    /// The on-board neighbours of `loc` that carry a mark.
    pub open spec fn marked_nbr_set(self, loc: (usize, usize)) -> Set<(usize, usize)> {
        Set::new(
            |p: (usize, usize)| self.in_bounds(p) && adjacent(loc, p) && self.cell_at(p).is_marked(),
        )
    }

    /// The count of clear scratch bits on the whole board.
    pub closed spec fn scratch_debt(self) -> int {
        unscratched_upto(self.cells@, self.cells@.len() as int)
    }

    /// Rewrite the state and the scratch bit of the cell at `loc`, leaving
    /// its category alone.
    fn set_state(&mut self, loc: (usize, usize), state: CellState, scratch: bool)
        requires
            old(self).wf_shape(),
            old(self).in_bounds(loc),
        ensures
            final(self).wf_shape(),
            final(self).spec_w() == old(self).spec_w(),
            final(self).spec_h() == old(self).spec_h(),
            final(self).cell_at(loc) == (Cell {
                state,
                category: old(self).cell_at(loc).category,
                scratch,
            }),
            forall|q: (usize, usize)|
                old(self).in_bounds(q) && q != loc ==> final(self).cell_at(q) == old(self).cell_at(
                    q,
                ),
            forall|q: (usize, usize)|
                old(self).in_bounds(q) ==> (#[trigger] final(self).cell_at(q)).category == old(
                    self,
                ).cell_at(q).category,
            forall|q: (usize, usize)|
                old(self).in_bounds(q) ==> #[trigger] final(self).mine_nbr_set(q) == old(
                    self,
                ).mine_nbr_set(q),
            old(self).wf() ==> final(self).wf(),
            old(self).zero_cells_clear() ==> final(self).zero_cells_clear(),
            final(self).scratch_debt() == old(self).scratch_debt() + (if !scratch {
                1int
            } else {
                0int
            }) - (if !old(self).cell_at(loc).scratch {
                1int
            } else {
                0int
            }),
    {
        let mut c = self.cells[loc.1][loc.0];
        c.state = state;
        c.scratch = scratch;
        let ghost g0 = self.cells@;
        let ghost c0 = self.cells@[loc.1 as int]@[loc.0 as int];
        self.cells[loc.1][loc.0] = c;
        proof {
            let ghost row2 = self.cells@[loc.1 as int];
            assert(row2@ == g0[loc.1 as int]@.update(loc.0 as int, c));
            assert(self.cells@ == g0.update(loc.1 as int, row2));
            lemma_unscratched_upto_update(g0, g0.len() as int, loc.1 as int, row2, loc.0 as int, c);
            assert forall|q: (usize, usize)| old(self).in_bounds(q) implies #[trigger] self
                .mine_nbr_set(q) == old(self).mine_nbr_set(q) by {
                assert forall|t: (usize, usize)|
                    self.mine_nbr_set(q).contains(t) == old(self).mine_nbr_set(q).contains(t) by {
                    if old(self).in_bounds(t) {
                        assert(self.cell_at(t).category == old(self).cell_at(t).category);
                    }
                }
                assert(self.mine_nbr_set(q) =~= old(self).mine_nbr_set(q));
            }
            if old(self).wf() {
                assert forall|p: (usize, usize)| self.in_bounds(p) implies (
                #[trigger] self.cell_at(p)).wf() by {
                    assert(old(self).cell_at(p).wf());
                    if p != loc {
                        assert(self.cell_at(p) == old(self).cell_at(p));
                    } else {
                        assert(self.cell_at(p).category == old(self).cell_at(p).category);
                    }
                }
            }
            if old(self).zero_cells_clear() {
                assert forall|p: (usize, usize)|
                    self.in_bounds(p) && (#[trigger] self.cell_at(p)).category
                        == CellCategory::Empty(None::<u8>) implies self.mine_nbr_set(
                    p,
                ).is_empty() by {
                    assert(old(self).cell_at(p).category == self.cell_at(p).category);
                    assert(old(self).mine_nbr_set(p).is_empty());
                    assert(self.mine_nbr_set(p) == old(self).mine_nbr_set(p));
                }
            }
        }
    }

    /// Toggle the mark on a hidden cell; revealed cells are left alone.
    /// Fails exactly on out-of-range locations.
    pub fn mark(&mut self, point: (usize, usize)) -> (r: Result<(), Error>)
        requires
            old(self).wf_shape(),
        ensures
            final(self).wf_shape(),
            final(self).spec_w() == old(self).spec_w(),
            final(self).spec_h() == old(self).spec_h(),
            old(self).wf() ==> final(self).wf(),
            old(self).zero_cells_clear() ==> final(self).zero_cells_clear(),
            !old(self).in_bounds(point) ==> r == Err::<(), Error>(Error::OOB) && *final(self)
                == *old(self),
            old(self).in_bounds(point) ==> {
                &&& r is Ok
                &&& final(self).cell_at(point).category == old(self).cell_at(point).category
                &&& final(self).cell_at(point).scratch == old(self).cell_at(point).scratch
                &&& final(self).cell_at(point).state == match old(self).cell_at(point).state {
                    CellState::Hidden => CellState::Marked,
                    CellState::Marked => CellState::Hidden,
                    CellState::Visible => CellState::Visible,
                }
                &&& forall|q: (usize, usize)|
                    old(self).in_bounds(q) && q != point ==> final(self).cell_at(q) == old(
                        self,
                    ).cell_at(q)
            },
    {
        if !self.is_loc(point) {
            return Err(Error::OOB);
        }
        let c = self.cell(point);
        let new_state = match c.state {
            CellState::Hidden => CellState::Marked,
            CellState::Marked => CellState::Hidden,
            CellState::Visible => CellState::Visible,
        };
        self.set_state(point, new_state, c.scratch);
        Ok(())
    }

    /// Whether every cell that is not a mine has been revealed: the winning
    /// condition.
    pub fn is_all_but_mines_revealed(&self) -> (r: bool)
        requires
            self.wf_shape(),
        ensures
            r == forall|p: (usize, usize)|
                self.in_bounds(p) ==> ((#[trigger] self.cell_at(p)).is_mine_cell() || self.cell_at(
                    p,
                ).is_visible()),
    {
        let h = self.h();
        let w = self.w();
        let mut row: usize = 0;
        while row < h
            invariant
                self.wf_shape(),
                w == self.spec_w(),
                h == self.spec_h(),
                row <= h,
                forall|p: (usize, usize)|
                    self.in_bounds(p) && p.1 < row ==> ((#[trigger] self.cell_at(
                        p,
                    )).is_mine_cell() || self.cell_at(p).is_visible()),
            decreases h - row,
        {
            let mut col: usize = 0;
            while col < w
                invariant
                    self.wf_shape(),
                    w == self.spec_w(),
                    h == self.spec_h(),
                    row < h,
                    col <= w,
                    forall|p: (usize, usize)|
                        self.in_bounds(p) && (p.1 < row || (p.1 == row && p.0 < col)) ==> ((
                        #[trigger] self.cell_at(p)).is_mine_cell() || self.cell_at(p).is_visible()),
                decreases w - col,
            {
                let cell = self.cell((col, row));
                if !cell.is_mine() && !matches!(cell.state, CellState::Visible) {
                    return false;
                }
                col += 1;
            }
            row += 1;
        }
        true
    }

    /// Count the marked cells adjacent to a location.
    pub(crate) fn count_marked_nbrs(&self, loc: (usize, usize)) -> (n: u8)
        requires
            self.wf_shape(),
            self.in_bounds(loc),
        ensures
            self.marked_nbr_set(loc).finite(),
            n == self.marked_nbr_set(loc).len(),
            n <= 8,
    {
        let nbrs = self.surroundings_of(loc);
        let mut n: u8 = 0;
        let ghost mut seen: Set<(usize, usize)> = Set::empty();
        let mut i: usize = 0;
        while i < nbrs.len()
            invariant
                self.wf_shape(),
                self.in_bounds(loc),
                i <= nbrs@.len(),
                nbrs@.len() <= 8,
                nbrs@.no_duplicates(),
                forall|p: (usize, usize)|
                    #[trigger] nbrs@.contains(p) <==> (self.in_bounds(p) && adjacent(loc, p)),
                seen.finite(),
                n == seen.len(),
                n <= i,
                seen == Set::new(
                    |p: (usize, usize)|
                        nbrs@.take(i as int).contains(p) && self.cell_at(p).is_marked(),
                ),
            decreases nbrs@.len() - i,
        {
            let p = nbrs[i];
            proof {
                assert(nbrs@.contains(p));
                if nbrs@.take(i as int).contains(p) {
                    let j = choose|j: int| 0 <= j < i && nbrs@.take(i as int)[j] == p;
                    assert(nbrs@[j] == nbrs@[i as int]);
                    assert(false);
                }
            }
            let c = self.cell(p);
            if matches!(c.state, CellState::Marked) {
                n += 1;
                proof {
                    assert(!seen.contains(p));
                    seen = seen.insert(p);
                }
            }
            proof {
                assert(nbrs@.take(i + 1) =~= nbrs@.take(i as int).push(p));
                assert(seen =~= Set::new(
                    |q: (usize, usize)|
                        nbrs@.take(i + 1).contains(q) && self.cell_at(q).is_marked(),
                ));
            }
            i += 1;
        }
        proof {
            assert(nbrs@.take(nbrs@.len() as int) =~= nbrs@);
            assert(seen =~= self.marked_nbr_set(loc));
        }
        n
    }

    /// Is some neighbour of `loc` an unmarked mine?
    fn has_unmarked_mine_nbr(&self, loc: (usize, usize)) -> (r: bool)
        requires
            self.wf_shape(),
            self.in_bounds(loc),
        ensures
            r == exists|p: (usize, usize)|
                self.in_bounds(p) && adjacent(loc, p) && !(#[trigger] self.cell_at(p)).is_marked()
                    && self.cell_at(p).is_mine_cell(),
    {
        let nbrs = self.surroundings_of(loc);
        let mut i: usize = 0;
        while i < nbrs.len()
            invariant
                self.wf_shape(),
                self.in_bounds(loc),
                i <= nbrs@.len(),
                forall|p: (usize, usize)|
                    #[trigger] nbrs@.contains(p) <==> (self.in_bounds(p) && adjacent(loc, p)),
                forall|j: int|
                    0 <= j < i ==> !(!(#[trigger] self.cell_at(nbrs@[j])).is_marked() && self
                        .cell_at(nbrs@[j]).is_mine_cell()),
            decreases nbrs@.len() - i,
        {
            let p = nbrs[i];
            proof {
                assert(nbrs@.contains(p));
            }
            let c = self.cell(p);
            if !matches!(c.state, CellState::Marked) && c.is_mine() {
                return true;
            }
            i += 1;
        }
        proof {
            assert forall|p: (usize, usize)|
                self.in_bounds(p) && adjacent(loc, p) implies ((#[trigger] self.cell_at(
                p,
            )).is_marked() || !self.cell_at(p).is_mine_cell()) by {
                assert(nbrs@.contains(p));
                let j = choose|j: int| 0 <= j < nbrs@.len() && nbrs@[j] == p;
                assert(!(!self.cell_at(nbrs@[j]).is_marked() && self.cell_at(
                    nbrs@[j],
                ).is_mine_cell()));
            }
        }
        false
    }

    /// Flood-reveal from a cell with no adjacent mines: the cell and, walking
    /// outward over zero-count cells, every unmarked neighbour are revealed.
    fn dig_region(&mut self, start: (usize, usize)) -> (r: Result<(), Error>)
        requires
            old(self).wf(),
            old(self).zero_cells_clear(),
            old(self).in_bounds(start),
            old(self).cell_at(start).category == CellCategory::Empty(None::<u8>),
            old(self).cell_at(start).state != CellState::Marked,
        ensures
            r is Ok,
            reveal_only(*old(self), *final(self)),
            final(self).wf(),
            final(self).zero_cells_clear(),
            final(self).cell_at(start).is_visible(),
            ring_revealed(*old(self), *final(self), start),
    {
        let h = self.h();
        let w = self.w();
        let mut row: usize = 0;
        while row < h
            invariant
                self.wf(),
                self.zero_cells_clear(),
                w == self.spec_w(),
                h == self.spec_h(),
                row <= h,
                self.spec_w() == old(self).spec_w(),
                self.spec_h() == old(self).spec_h(),
                forall|q: (usize, usize)|
                    old(self).in_bounds(q) ==> (#[trigger] self.cell_at(q)).category == old(
                        self,
                    ).cell_at(q).category && self.cell_at(q).state == old(self).cell_at(q).state,
            decreases h - row,
        {
            let mut col: usize = 0;
            while col < w
                invariant
                    self.wf(),
                    self.zero_cells_clear(),
                    w == self.spec_w(),
                    h == self.spec_h(),
                    row < h,
                    col <= w,
                    self.spec_w() == old(self).spec_w(),
                    self.spec_h() == old(self).spec_h(),
                    forall|q: (usize, usize)|
                        old(self).in_bounds(q) ==> (#[trigger] self.cell_at(q)).category == old(
                            self,
                        ).cell_at(q).category && self.cell_at(q).state == old(self).cell_at(
                            q,
                        ).state,
                decreases w - col,
            {
                let c = self.cell((col, row));
                self.set_state((col, row), c.state, false);
                col += 1;
            }
            row += 1;
        }
        self.set_state(start, CellState::Visible, true);
        proof {
            assert(self.cell_at(start).category == CellCategory::Empty(None::<u8>));
        }
        let mut stack: Vec<(usize, usize)> = Vec::new();
        stack.push(start);
        proof {
            assert(stack@ =~= seq![start]);
        }
        while stack.len() > 0
            invariant
                self.wf(),
                self.zero_cells_clear(),
                self.spec_w() == old(self).spec_w(),
                self.spec_h() == old(self).spec_h(),
                reveal_only(*old(self), *self),
                old(self).in_bounds(start),
                self.cell_at(start).is_visible(),
                stack@ == seq![start] || ring_revealed(*old(self), *self, start),
                forall|k: int|
                    0 <= k < stack@.len() ==> self.in_bounds(#[trigger] stack@[k]) && self.cell_at(
                        stack@[k],
                    ).category == CellCategory::Empty(None::<u8>),
            decreases self.scratch_debt(), stack@.len(),
        {
            proof {
                lemma_unscratched_upto_nonneg(self.cells@, self.cells@.len() as int);
            }
            let ghost was_start = stack@ == seq![start];
            let loc = stack.pop().unwrap();
            proof {
                if was_start {
                    assert(loc == start);
                }
            }
            let ghost debt0 = self.scratch_debt();
            let ghost slen0 = stack@.len();
            let nbrs = self.surroundings_of(loc);
            let mut j: usize = 0;
            while j < nbrs.len()
                invariant
                    self.wf(),
                    self.zero_cells_clear(),
                    self.spec_w() == old(self).spec_w(),
                    self.spec_h() == old(self).spec_h(),
                    reveal_only(*old(self), *self),
                    old(self).in_bounds(start),
                    self.cell_at(start).is_visible(),
                    self.in_bounds(loc),
                    self.cell_at(loc).category == CellCategory::Empty(None::<u8>),
                    j <= nbrs@.len(),
                    forall|p: (usize, usize)|
                        #[trigger] nbrs@.contains(p) <==> (self.in_bounds(p) && adjacent(loc, p)),
                    forall|k: int|
                        0 <= k < stack@.len() ==> self.in_bounds(#[trigger] stack@[k]) && self
                            .cell_at(stack@[k]).category == CellCategory::Empty(None::<u8>),
                    self.scratch_debt() <= debt0,
                    stack@.len() >= slen0,
                    stack@.len() > slen0 ==> self.scratch_debt() < debt0,
                    !was_start ==> ring_revealed(*old(self), *self, start),
                    was_start ==> loc == start,
                    was_start ==> (forall|k: int|
                        0 <= k < j ==> (old(self).cell_at(#[trigger] nbrs@[k]).state
                            != CellState::Marked ==> self.cell_at(nbrs@[k]).is_visible())),
                decreases nbrs@.len() - j,
            {
                let p = nbrs[j];
                proof {
                    assert(nbrs@.contains(p));
                }
                let c = self.cell(p);
                match c.category {
                    CellCategory::Empty(num_mines) => {
                        let ghost mid = *self;
                        if num_mines.is_none() && !matches!(c.state, CellState::Marked)
                            && !c.scratch {
                            self.set_state(p, CellState::Visible, true);
                            stack.push(p);
                            proof {
                                lemma_reveal_only_set(*old(self), mid, *self, p);
                            }
                        } else if !matches!(c.state, CellState::Marked) {
                            self.set_state(p, CellState::Visible, c.scratch);
                            proof {
                                lemma_reveal_only_set(*old(self), mid, *self, p);
                            }
                        }
                    },
                    CellCategory::Mine => {
                        proof {
                            assert(self.mine_nbr_set(loc).contains(p));
                            assert(self.mine_nbr_set(loc).is_empty());
                            assert(false);
                        }
                    },
                }
                proof {
                    if was_start {
                        assert forall|k: int|
                            0 <= k < j + 1 && old(self).cell_at(#[trigger] nbrs@[k]).state
                                != CellState::Marked implies self.cell_at(
                            nbrs@[k],
                        ).is_visible() by {
                            assert(nbrs@.contains(nbrs@[k]));
                            if k == j {
                                assert(nbrs@[k] == p);
                            }
                        }
                    }
                }
                j += 1;
            }
            proof {
                lemma_unscratched_upto_nonneg(self.cells@, self.cells@.len() as int);
                if was_start {
                    assert forall|q: (usize, usize)|
                        old(self).in_bounds(q) && adjacent(start, q) && (#[trigger] old(
                            self,
                        ).cell_at(q)).state != CellState::Marked implies self.cell_at(
                        q,
                    ).is_visible() by {
                        assert(nbrs@.contains(q));
                        let k = choose|k: int| 0 <= k < nbrs@.len() && nbrs@[k] == q;
                        assert(old(self).cell_at(nbrs@[k]).state != CellState::Marked);
                    }
                    assert(ring_revealed(*old(self), *self, start));
                }
            }
        }
        Ok(())
    }

    /// Reveal around a satisfied numbered cell: when the marks around `point`
    /// match its number, every unmarked neighbour is revealed; a wrongly
    /// placed mark then costs the game.
    fn chord(&mut self, point: (usize, usize), target_num_mines: u8) -> (r: Result<(), Error>)
        requires
            old(self).wf(),
            old(self).zero_cells_clear(),
            old(self).in_bounds(point),
        ensures
            final(self).wf(),
            final(self).zero_cells_clear(),
            reveal_only(*old(self), *final(self)),
            old(self).marked_nbr_set(point).len() != target_num_mines ==> r is Ok && *final(self)
                == *old(self),
            old(self).marked_nbr_set(point).len() == target_num_mines ==> {
                &&& (r == Err::<(), Error>(Error::Dead) <==> exists|p: (usize, usize)|
                    old(self).in_bounds(p) && adjacent(point, p) && !(#[trigger] old(self).cell_at(
                        p,
                    )).is_marked() && old(self).cell_at(p).is_mine_cell())
                &&& (r is Ok || r == Err::<(), Error>(Error::Dead))
                &&& forall|p: (usize, usize)|
                    old(self).in_bounds(p) && adjacent(point, p) && !(#[trigger] old(self).cell_at(
                        p,
                    )).is_marked() ==> final(self).cell_at(p).is_visible()
            },
    {
        let marked = self.count_marked_nbrs(point);
        if marked != target_num_mines {
            return Ok(());
        }
        let dead = self.has_unmarked_mine_nbr(point);
        let nbrs = self.surroundings_of(point);
        let mut j: usize = 0;
        while j < nbrs.len()
            invariant
                self.wf(),
                self.zero_cells_clear(),
                self.spec_w() == old(self).spec_w(),
                self.spec_h() == old(self).spec_h(),
                reveal_only(*old(self), *self),
                old(self).in_bounds(point),
                j <= nbrs@.len(),
                forall|p: (usize, usize)|
                    #[trigger] nbrs@.contains(p) <==> (self.in_bounds(p) && adjacent(point, p)),
                forall|k: int|
                    0 <= k < j ==> (!old(self).cell_at(#[trigger] nbrs@[k]).is_marked() ==> self
                        .cell_at(nbrs@[k]).is_visible()),
            decreases nbrs@.len() - j,
        {
            let p = nbrs[j];
            proof {
                assert(nbrs@.contains(p));
            }
            let c = self.cell(p);
            let ghost mid = *self;
            if !matches!(c.state, CellState::Marked) {
                if matches!(c.category, CellCategory::Empty(None)) {
                    let _ = self.dig_region(p);
                    proof {
                        lemma_reveal_only_trans(*old(self), mid, *self);
                    }
                } else {
                    self.set_state(p, CellState::Visible, c.scratch);
                    proof {
                        lemma_reveal_only_set(*old(self), mid, *self, p);
                    }
                }
                proof {
                    assert forall|k: int|
                        0 <= k < j + 1 && !old(self).cell_at(#[trigger] nbrs@[k]).is_marked()
                            implies self.cell_at(nbrs@[k]).is_visible() by {
                        assert(nbrs@.contains(nbrs@[k]));
                        assert(mid.in_bounds(nbrs@[k]));
                        if k < j {
                            assert(mid.cell_at(nbrs@[k]).is_visible());
                        }
                    }
                }
            } else {
                proof {
                    assert(old(self).cell_at(p).is_marked());
                    assert forall|k: int|
                        0 <= k < j + 1 && !old(self).cell_at(#[trigger] nbrs@[k]).is_marked()
                            implies self.cell_at(nbrs@[k]).is_visible() by {
                        assert(k < j || nbrs@[k] == p);
                    }
                }
            }
            j += 1;
        }
        proof {
            assert forall|p: (usize, usize)|
                old(self).in_bounds(p) && adjacent(point, p) && !(#[trigger] old(self).cell_at(
                    p,
                )).is_marked() implies self.cell_at(p).is_visible() by {
                assert(nbrs@.contains(p));
                let k = choose|k: int| 0 <= k < nbrs@.len() && nbrs@[k] == p;
                assert(!old(self).cell_at(nbrs@[k]).is_marked());
            }
        }
        if dead {
            Err(Error::Dead)
        } else {
            Ok(())
        }
    }

    /// Dig at a location: reveal a hidden cell, flood-reveal from a cell with
    /// no adjacent mines, chord on an already revealed number, and die on a
    /// mine.  Out-of-range and marked locations are rejected.
    pub fn dig(&mut self, point: (usize, usize)) -> (r: Result<(), Error>)
        requires
            old(self).wf(),
            old(self).zero_cells_clear(),
        ensures
            final(self).wf(),
            final(self).zero_cells_clear(),
            !old(self).in_bounds(point) ==> r == Err::<(), Error>(Error::OOB) && *final(self)
                == *old(self),
            old(self).in_bounds(point) ==> {
                let c = old(self).cell_at(point);
                &&& reveal_only(*old(self), *final(self))
                &&& (c.is_marked() ==> r == Err::<(), Error>(Error::Marked) && *final(self) == *old(
                    self,
                ))
                &&& (!c.is_marked() && c.is_mine_cell() ==> r == Err::<(), Error>(Error::Dead)
                    && *final(self) == *old(self))
                &&& (!c.is_marked() && c.category == CellCategory::Empty(None::<u8>)
                    && c.is_hidden_unmarked() ==> r is Ok && final(self).cell_at(
                    point,
                ).is_visible() && ring_revealed(*old(self), *final(self), point))
                &&& (!c.is_marked() && c.category == CellCategory::Empty(None::<u8>)
                    && c.is_visible() ==> r is Ok && *final(self) == *old(self))
                &&& (forall|n: u8|
                    c.category == CellCategory::Empty(Some(n)) && c.is_hidden_unmarked() ==> r is Ok
                        && final(self).cell_at(point).is_visible() && (forall|q: (usize, usize)|
                        old(self).in_bounds(q) && q != point ==> final(self).cell_at(q) == old(
                            self,
                        ).cell_at(q)))
                &&& (forall|n: u8|
                    c.category == CellCategory::Empty(Some(n)) && c.is_visible() ==> {
                        &&& (old(self).marked_nbr_set(point).len() != n ==> r is Ok && *final(self)
                            == *old(self))
                        &&& (old(self).marked_nbr_set(point).len() == n ==> {
                            &&& (r == Err::<(), Error>(Error::Dead) <==> exists|p: (usize, usize)|
                                old(self).in_bounds(p) && adjacent(point, p) && !(#[trigger] old(
                                    self,
                                ).cell_at(p)).is_marked() && old(self).cell_at(p).is_mine_cell())
                            &&& (r is Ok || r == Err::<(), Error>(Error::Dead))
                            &&& (forall|p: (usize, usize)|
                                old(self).in_bounds(p) && adjacent(point, p) && !(#[trigger] old(
                                    self,
                                ).cell_at(p)).is_marked() ==> final(self).cell_at(p).is_visible())
                        })
                    })
            },
    {
        if !self.is_loc(point) {
            return Err(Error::OOB);
        }
        let c = self.cell(point);
        if matches!(c.state, CellState::Marked) {
            return Err(Error::Marked);
        }
        match c.category {
            CellCategory::Mine => Err(Error::Dead),
            CellCategory::Empty(None) => {
                if matches!(c.state, CellState::Hidden) {
                    self.dig_region(point)
                } else {
                    Ok(())
                }
            },
            CellCategory::Empty(Some(num_mines)) => {
                if matches!(c.state, CellState::Hidden) {
                    self.set_state(point, CellState::Visible, c.scratch);
                    Ok(())
                } else {
                    self.chord(point, num_mines)
                }
            },
        }
    }

    /// Probe for a certain move: the error marks that the solver sees one
    /// the player has not taken.  On a consistent board, a revealed cell
    /// whose count is already satisfied but still has hidden neighbours, or
    /// whose hidden neighbours its count exhausts, guarantees the probe
    /// fires.  A board whose marks already contradict its numbers yields no
    /// probe result.
    pub fn launch_probe(&self) -> (r: Result<(), Error>)
        requires
            self.wf_shape(),
        ensures
            r == Ok::<(), Error>(()) || r == Err::<(), Error>(Error::Dead),
            crate::solver::region::consistent(*self) && (exists|loc: (usize, usize)|
                crate::solver::region::region_source(*self, loc)
                    && crate::solver::region::required_at(*self, loc) == 0 && !(
                #[trigger] crate::solver::region::hidden_nbrs(*self, loc)).is_empty()) ==> r
                == Err::<(), Error>(Error::Dead),
            crate::solver::region::consistent(*self) && (exists|loc: (usize, usize)|
                crate::solver::region::region_source(*self, loc)
                    && crate::solver::region::required_at(*self, loc)
                    == crate::solver::region::hidden_nbrs(*self, loc).len() && !(
                #[trigger] crate::solver::region::hidden_nbrs(*self, loc)).is_empty()) ==> r
                == Err::<(), Error>(Error::Dead),
            crate::solver::region::flag_overcount(*self) ==> r == Ok::<(), Error>(()),
    {
        let mut solver = crate::solver::Solver::new(self);
        match solver.calculate_known_cells() {
            Ok(Some(_)) => Err(Error::Dead),
            Ok(None) => {
                proof {
                    if exists|loc: (usize, usize)|
                        crate::solver::region::region_source(*self, loc)
                            && crate::solver::region::required_at(*self, loc) == 0 && !(
                        #[trigger] crate::solver::region::hidden_nbrs(*self, loc)).is_empty() {
                        let loc = choose|loc: (usize, usize)|
                            crate::solver::region::region_source(*self, loc)
                                && crate::solver::region::required_at(*self, loc) == 0 && !(
                            #[trigger] crate::solver::region::hidden_nbrs(
                                *self,
                                loc,
                            )).is_empty();
                        let p = crate::solver::region::hidden_nbrs(*self, loc).choose();
                        assert(crate::solver::region::hidden_nbrs(*self, loc).contains(p));
                        assert(false);
                    }
                    if exists|loc: (usize, usize)|
                        crate::solver::region::region_source(*self, loc)
                            && crate::solver::region::required_at(*self, loc)
                            == crate::solver::region::hidden_nbrs(*self, loc).len() && !(
                        #[trigger] crate::solver::region::hidden_nbrs(*self, loc)).is_empty() {
                        let loc = choose|loc: (usize, usize)|
                            crate::solver::region::region_source(*self, loc)
                                && crate::solver::region::required_at(*self, loc)
                                == crate::solver::region::hidden_nbrs(*self, loc).len() && !(
                            #[trigger] crate::solver::region::hidden_nbrs(
                                *self,
                                loc,
                            )).is_empty();
                        let p = crate::solver::region::hidden_nbrs(*self, loc).choose();
                        assert(crate::solver::region::hidden_nbrs(*self, loc).contains(p));
                        assert(false);
                    }
                }
                Ok(())
            },
            Err(_) => {
                proof {
                    assert(!crate::solver::region::consistent(*self));
                }
                Ok(())
            },
        }
    }

    /// Whether the solver can already name a certainly safe cell or a
    /// certain mine.  Whenever some revealed cell's marks fully satisfy its
    /// number and hidden neighbours remain, or fully exhaust them, a move is
    /// found.
    pub fn has_deducible_move(&self) -> (r: Result<bool, crate::solver::SolveError>)
        requires
            self.wf_shape(),
        ensures
            r matches Ok(found) ==> ((exists|loc: (usize, usize)|
                crate::solver::region::region_source(*self, loc)
                    && crate::solver::region::required_at(*self, loc) == 0 && !(
                #[trigger] crate::solver::region::hidden_nbrs(*self, loc)).is_empty()) ==> found),
            r matches Ok(found) ==> ((exists|loc: (usize, usize)|
                crate::solver::region::region_source(*self, loc)
                    && crate::solver::region::required_at(*self, loc)
                    == crate::solver::region::hidden_nbrs(*self, loc).len() && !(
                #[trigger] crate::solver::region::hidden_nbrs(*self, loc)).is_empty()) ==> found),
            crate::solver::region::consistent(*self) ==> r is Ok,
            crate::solver::region::flag_overcount(*self) ==> r == Err::<
                bool,
                crate::solver::SolveError,
            >(crate::solver::SolveError::FlagOvercount),
            r == Ok::<bool, crate::solver::SolveError>(true) ==> !crate::solver::region::flag_overcount(
                *self,
            ),
            crate::solver::region::hidden_cells(*self).is_empty() && r is Ok ==> r == Ok::<
                bool,
                crate::solver::SolveError,
            >(false),
    {
        let mut solver = crate::solver::Solver::new(self);
        match solver.calculate_known_cells() {
            Ok(Some(kc)) => Ok(true),
            Ok(None) => {
                proof {
                    if exists|loc: (usize, usize)|
                        crate::solver::region::region_source(*self, loc)
                            && crate::solver::region::required_at(*self, loc) == 0 && !(
                        #[trigger] crate::solver::region::hidden_nbrs(*self, loc)).is_empty() {
                        let loc = choose|loc: (usize, usize)|
                            crate::solver::region::region_source(*self, loc)
                                && crate::solver::region::required_at(*self, loc) == 0 && !(
                            #[trigger] crate::solver::region::hidden_nbrs(
                                *self,
                                loc,
                            )).is_empty();
                        let p = crate::solver::region::hidden_nbrs(*self, loc).choose();
                        assert(crate::solver::region::hidden_nbrs(*self, loc).contains(p));
                        assert(false);
                    }
                    if exists|loc: (usize, usize)|
                        crate::solver::region::region_source(*self, loc)
                            && crate::solver::region::required_at(*self, loc)
                            == crate::solver::region::hidden_nbrs(*self, loc).len() && !(
                        #[trigger] crate::solver::region::hidden_nbrs(*self, loc)).is_empty() {
                        let loc = choose|loc: (usize, usize)|
                            crate::solver::region::region_source(*self, loc)
                                && crate::solver::region::required_at(*self, loc)
                                == crate::solver::region::hidden_nbrs(*self, loc).len() && !(
                            #[trigger] crate::solver::region::hidden_nbrs(
                                *self,
                                loc,
                            )).is_empty();
                        let p = crate::solver::region::hidden_nbrs(*self, loc).choose();
                        assert(crate::solver::region::hidden_nbrs(*self, loc).contains(p));
                        assert(false);
                    }
                }
                Ok(false)
            },
            Err(e) => {
                proof {
                    assert(!crate::solver::region::consistent(*self));
                }
                Err(e)
            },
        }
    }

    /// Draw the top-left window of the board that fits the given limits, as
    /// rows of characters.
    pub fn display(&self, max_dims: (usize, usize), top_left: (usize, usize)) -> (r: Result<
        Vec<Vec<char>>,
        (),
    >)
        requires
            self.wf(),
            top_left.0 <= self.spec_w(),
            top_left.1 <= self.spec_h(),
        ensures
            r is Ok,
            ({
                let snippet = r->Ok_0;
                let tw = vstd::math::min(max_dims.0 as int, self.spec_w() - top_left.0);
                let th = vstd::math::min(max_dims.1 as int, self.spec_h() - top_left.1);
                &&& snippet@.len() == th
                &&& forall|i: int| 0 <= i < th ==> (#[trigger] snippet@[i])@.len() == tw
                &&& forall|i: int, j: int|
                    0 <= i < th && 0 <= j < tw ==> (#[trigger] snippet@[i]@[j]) == self.cell_at(
                        ((j as usize, i as usize)),
                    ).spec_char()
            }),
    {
        let rem_w = self.w() - top_left.0;
        let rem_h = self.h() - top_left.1;
        let true_w = if max_dims.0 < rem_w {
            max_dims.0
        } else {
            rem_w
        };
        let true_h = if max_dims.1 < rem_h {
            max_dims.1
        } else {
            rem_h
        };
        let mut snippet: Vec<Vec<char>> = Vec::new();
        let mut row: usize = 0;
        while row < true_h
            invariant
                self.wf(),
                true_w <= self.spec_w(),
                true_h <= self.spec_h(),
                row <= true_h,
                snippet@.len() == row,
                forall|i: int| 0 <= i < row ==> (#[trigger] snippet@[i])@.len() == true_w,
                forall|i: int, j: int|
                    0 <= i < row && 0 <= j < true_w ==> (#[trigger] snippet@[i]@[j]) == self
                        .cell_at(((j as usize, i as usize))).spec_char(),
            decreases true_h - row,
        {
            let mut line: Vec<char> = Vec::new();
            let mut col: usize = 0;
            while col < true_w
                invariant
                    self.wf(),
                    true_w <= self.spec_w(),
                    true_h <= self.spec_h(),
                    row < true_h,
                    col <= true_w,
                    line@.len() == col,
                    forall|j: int|
                        0 <= j < col ==> (#[trigger] line@[j]) == self.cell_at(
                            ((j as usize, row as usize)),
                        ).spec_char(),
                decreases true_w - col,
            {
                let cell = self.cell((col, row));
                line.push(cell.to_char());
                col += 1;
            }
            snippet.push(line);
            row += 1;
        }
        Ok(snippet)
    }
}

/// `b` keeps the state, the scratch bit and the mine placement that `orig`
/// has at `p`.
pub open spec fn mirror_at(orig: Board, b: Board, p: (usize, usize)) -> bool {
    &&& b.cell_at(p).state == orig.cell_at(p).state
    &&& b.cell_at(p).scratch == orig.cell_at(p).scratch
    &&& b.cell_at(p).is_mine_cell() == orig.cell_at(p).is_mine_cell()
}

/// At `p`, `b` holds the cell that `from_cells` derives from `orig`'s cell.
pub open spec fn numbered_at(orig: Board, b: Board, p: (usize, usize)) -> bool {
    mirror_at(orig, b, p) && cell_rule(orig.cell_at(p), b.cell_at(p), b.mine_nbr_set(p).len())
}

/// `b` holds exactly `orig`'s cell at `p`.
pub open spec fn same_at(orig: Board, b: Board, p: (usize, usize)) -> bool {
    b.cell_at(p) == orig.cell_at(p)
}

/// How `from_cells` rewrites one cell, given its count of mined neighbours.
pub open spec fn cell_rule(oldc: Cell, newc: Cell, nbr_mines: nat) -> bool {
    &&& newc.state == oldc.state
    &&& newc.scratch == oldc.scratch
    &&& (oldc.is_mine_cell() ==> newc == oldc)
    &&& (!oldc.is_mine_cell() && nbr_mines == 0 ==> newc == oldc)
    &&& (!oldc.is_mine_cell() && nbr_mines > 0 ==> newc.category == CellCategory::Empty(
        Some(nbr_mines as u8),
    ))
}

/// A location has at most eight neighbours, so the set of its mined
/// neighbours holds at most eight locations.
pub proof fn lemma_mine_nbr_set_small(b: Board, loc: (usize, usize))
    ensures
        b.mine_nbr_set(loc).finite(),
        b.mine_nbr_set(loc).len() <= 8,
{
    let s = b.mine_nbr_set(loc);
    let big = Set::new(|p: (usize, usize)| adjacent(loc, p));
    assert(s.subset_of(big));
    lemma_adjacent_set_small(loc);
    vstd::set_lib::lemma_len_subset(s, big);
}

/// The set of locations adjacent to `loc` holds at most eight elements.
pub proof fn lemma_adjacent_set_small(loc: (usize, usize))
    ensures
        Set::new(|p: (usize, usize)| adjacent(loc, p)).finite(),
        Set::new(|p: (usize, usize)| adjacent(loc, p)).len() <= 8,
{
    let s = Set::new(|p: (usize, usize)| adjacent(loc, p));
    let (x, y) = loc;
    let xs = if x > 0 {
        (x - 1) as usize
    } else {
        x
    };
    let ys = if y > 0 {
        (y - 1) as usize
    } else {
        y
    };
    let xb = if x < usize::MAX {
        (x + 1) as usize
    } else {
        x
    };
    let yb = if y < usize::MAX {
        (y + 1) as usize
    } else {
        y
    };
    let big = Set::empty().insert((xs, ys)).insert((x, ys)).insert((xb, ys)).insert(
        (xs, y),
    ).insert((xb, y)).insert((xs, yb)).insert((x, yb)).insert((xb, yb));
    assert forall|p: (usize, usize)| s.contains(p) implies big.contains(p) by {
        assert(adjacent(loc, p));
        assert(p.0 == xs || p.0 == x || p.0 == xb);
        assert(p.1 == ys || p.1 == y || p.1 == yb);
        if p.1 == ys {
            assert(big.contains((xs, ys)) && big.contains((x, ys)) && big.contains((xb, ys)));
        } else if p.1 == y {
            assert(p.0 != x);
            assert(big.contains((xs, y)) && big.contains((xb, y)));
        } else {
            assert(big.contains((xs, yb)) && big.contains((x, yb)) && big.contains((xb, yb)));
        }
    }
    assert(big.len() <= 8);
    vstd::set_lib::lemma_len_subset(s, big);
}

} // verus!
