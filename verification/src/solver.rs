//! The deduction engine.  From a board snapshot it derives regions (exact
//! mine-count constraints over sets of hidden cells), strips the trivial
//! ones to a fixpoint, links overlapping regions pairwise inside connected
//! clusters, links the whole-board region against the leftovers, and
//! propagates forced conclusions.  The result names the hidden cells that
//! are provably safe and those that are provably mines.

pub mod region;
pub mod cc;
pub mod algo;

use vstd::prelude::*;
use std::collections::VecDeque;
use indexmap::IndexSet;
use crate::board::Board;
use crate::iset::{loc_set, loc_set_clone, loc_set_len, loc_set_new};
use crate::solver::algo::{found_ok, link_ok, links_ok, regions_ok, state_sat};
use crate::solver::region::{consistent, flag_overcount_at, from_source, hidden_cells,
    hidden_nbrs, lemma_consistent_required, lemma_locs_union_bound, lemma_mined_residual_sat,
    lemma_mined_union_in, lemma_mined_union_in_a, lemma_sat_after_removal, lemma_sat_split_bounds,
    lemma_zero_residual_sat, lemma_zero_union_bound, lemma_zero_union_disjoint, link_sat,
    links_sat, marked_cells, mine_cells, mined_residual_upto, mined_union, region_model,
    region_models, region_sat, region_source, regions_sat, required_at, true_mines, zero_union,
    zero_residual_upto, LinkedSubRegion, Region, StrippedRegions};

verus! {

broadcast use vstd::seq_lib::lemma_seq_contains_after_push;

/// A board whose marks contradict its numbers.  `FlagOvercount`: more marks
/// around a revealed cell (or on the whole board) than there are mines for
/// them.  `EmptyFeasibilitySet`: no mine assignment at all satisfies some
/// constraint or pair of constraints.
#[derive(Debug, PartialEq, Eq, Copy, Clone, Structural)]
pub enum SolveError {
    FlagOvercount,
    EmptyFeasibilitySet,
}

/// What one solve call concludes: cells provably safe and cells provably
/// mines.
#[derive(Debug, PartialEq, Eq)]
pub struct KnownCells {
    pub empty: IndexSet<(usize, usize)>,
    pub mines: IndexSet<(usize, usize)>,
}

/// Is any revealed cell overmarked?
fn find_overcount(board: &Board) -> (r: bool)
    requires
        board.wf_shape(),
    ensures
        r == exists|loc: (usize, usize)| flag_overcount_at(*board, loc),
{
    let w = board.w();
    let h = board.h();
    let mut row: usize = 0;
    while row < h
        invariant
            board.wf_shape(),
            w == board.spec_w(),
            h == board.spec_h(),
            row <= h,
            forall|p: (usize, usize)| p.1 < row ==> !flag_overcount_at(*board, p),
        decreases h - row,
    {
        let mut col: usize = 0;
        while col < w
            invariant
                board.wf_shape(),
                w == board.spec_w(),
                h == board.spec_h(),
                row < h,
                col <= w,
                forall|p: (usize, usize)|
                    p.1 < row || (p.1 == row && p.0 < col) ==> !flag_overcount_at(*board, p),
            decreases w - col,
        {
            let loc = (col, row);
            let c = board.cell(loc);
            if matches!(c.state, crate::board::CellState::Visible) && !c.is_mine() {
                let shown: u8 = match c.category {
                    crate::board::CellCategory::Empty(Some(n)) => n,
                    _ => 0,
                };
                let marked = board.count_marked_nbrs(loc);
                if marked > shown {
                    proof {
                        assert(flag_overcount_at(*board, loc));
                    }
                    return true;
                }
            }
            proof {
                assert(!flag_overcount_at(*board, loc));
            }
            col += 1;
        }
        row += 1;
    }
    proof {
        assert forall|p: (usize, usize)| !flag_overcount_at(*board, p) by {
            if p.1 < h {
            }
        }
    }
    false
}

/// One region per revealed empty cell; an error when some cell's constraint
/// already admits no assignment.
fn extract_regions(board: &Board) -> (r: Result<Vec<Region>, SolveError>)
    requires
        board.wf_shape(),
        forall|loc: (usize, usize)| !flag_overcount_at(*board, loc),
    ensures
        r is Err ==> r == Err::<Vec<Region>, SolveError>(SolveError::EmptyFeasibilitySet),
        (r is Ok <==> forall|loc: (usize, usize)|
            region_source(*board, loc) ==> required_at(*board, loc) <= (#[trigger] hidden_nbrs(
                *board,
                loc,
            )).len()),
        ({
            r matches Ok(rr) ==> {
                &&& forall|i: int| 0 <= i < rr@.len() ==> from_source(*board, #[trigger] rr@[i])
                &&& forall|i: int|
                    0 <= i < rr@.len() ==> (#[trigger] rr@[i]).wf() && rr@[i].locs().subset_of(
                        hidden_cells(*board),
                    )
                &&& forall|loc: (usize, usize)|
                    region_source(*board, loc) && required_at(*board, loc) == 0 ==> (
                    #[trigger] hidden_nbrs(*board, loc)).subset_of(zero_union(rr@))
                &&& forall|loc: (usize, usize)|
                    region_source(*board, loc) && required_at(*board, loc) == hidden_nbrs(
                        *board,
                        loc,
                    ).len() ==> (#[trigger] hidden_nbrs(*board, loc)).subset_of(mined_union(rr@))
            }
        }),
{
    let w = board.w();
    let h = board.h();
    let mut rr: Vec<Region> = Vec::new();
    let mut row: usize = 0;
    while row < h
        invariant
            board.wf_shape(),
            w == board.spec_w(),
            h == board.spec_h(),
            row <= h,
            forall|loc: (usize, usize)| !flag_overcount_at(*board, loc),
            forall|i: int|
                0 <= i < rr@.len() ==> (#[trigger] rr@[i]).wf() && rr@[i].locs().subset_of(
                    hidden_cells(*board),
                ),
            forall|i: int| 0 <= i < rr@.len() ==> from_source(*board, #[trigger] rr@[i]),
            forall|loc: (usize, usize)|
                loc.1 < row && region_source(*board, loc) ==> required_at(*board, loc) <= (
                #[trigger] hidden_nbrs(*board, loc)).len(),
            forall|loc: (usize, usize)|
                loc.1 < row && region_source(*board, loc) && required_at(*board, loc) == 0 ==> (
                #[trigger] hidden_nbrs(*board, loc)).subset_of(zero_union(rr@)),
            forall|loc: (usize, usize)|
                loc.1 < row && region_source(*board, loc) && required_at(*board, loc)
                    == hidden_nbrs(*board, loc).len() ==> (#[trigger] hidden_nbrs(
                    *board,
                    loc,
                )).subset_of(mined_union(rr@)),
        decreases h - row,
    {
        let mut col: usize = 0;
        while col < w
            invariant
                board.wf_shape(),
                w == board.spec_w(),
                h == board.spec_h(),
                row < h,
                col <= w,
                forall|loc: (usize, usize)| !flag_overcount_at(*board, loc),
                forall|i: int|
                    0 <= i < rr@.len() ==> (#[trigger] rr@[i]).wf() && rr@[i].locs().subset_of(
                        hidden_cells(*board),
                    ),
                forall|i: int| 0 <= i < rr@.len() ==> from_source(*board, #[trigger] rr@[i]),
                forall|loc: (usize, usize)|
                    (loc.1 < row || (loc.1 == row && loc.0 < col)) && region_source(*board, loc)
                        ==> required_at(*board, loc) <= (#[trigger] hidden_nbrs(*board, loc)).len(),
                forall|loc: (usize, usize)|
                    (loc.1 < row || (loc.1 == row && loc.0 < col)) && region_source(*board, loc)
                        && required_at(*board, loc) == 0 ==> (#[trigger] hidden_nbrs(
                        *board,
                        loc,
                    )).subset_of(zero_union(rr@)),
                forall|loc: (usize, usize)|
                    (loc.1 < row || (loc.1 == row && loc.0 < col)) && region_source(*board, loc)
                        && required_at(*board, loc) == hidden_nbrs(*board, loc).len() ==> (
                    #[trigger] hidden_nbrs(*board, loc)).subset_of(mined_union(rr@)),
            decreases w - col,
        {
            let loc = (col, row);
            match Region::around(board, loc) {
                Ok(None) => {},
                Ok(Some(reg)) => {
                    let ghost rr0 = rr@;
                    rr.push(reg);
                    proof {
                        assert(rr@ == rr0.push(reg));
                        assert(from_source(*board, reg));
                        assert forall|i: int| 0 <= i < rr@.len() implies from_source(
                            *board,
                            #[trigger] rr@[i],
                        ) by {
                            if i < rr0.len() {
                                assert(rr@[i] == rr0[i]);
                            } else {
                                assert(rr@[i] == reg);
                            }
                        }
                        assert forall|i: int|
                            0 <= i < rr@.len() implies (#[trigger] rr@[i]).wf() && rr@[i].locs()
                            .subset_of(hidden_cells(*board)) by {
                            if i < rr0.len() {
                                assert(rr@[i] == rr0[i]);
                            } else {
                                assert(rr@[i] == reg);
                                assert(reg.locs() == hidden_nbrs(*board, loc));
                                assert(hidden_nbrs(*board, loc).subset_of(hidden_cells(*board)));
                            }
                        }
                        crate::solver::region::lemma_zero_union_prefix(rr0, rr@, rr0.len() as int);
                        crate::solver::region::lemma_mined_union_prefix(rr0, rr@, rr0.len() as int);
                        assert(zero_union(rr@) == crate::solver::region::zero_union_upto(
                            rr@,
                            rr0.len() as int,
                        ).union(
                            if rr@[rr0.len() as int].req() == 0 {
                                rr@[rr0.len() as int].locs()
                            } else {
                                Set::empty()
                            },
                        ));
                        assert(zero_union(rr0).subset_of(zero_union(rr@)));
                        assert(mined_union(rr0).subset_of(mined_union(rr@)));
                        if reg.req() == 0 {
                            assert(reg.locs().subset_of(zero_union(rr@)));
                        }
                        if reg.req() == reg.locs().len() {
                            crate::solver::region::lemma_mined_union_contains(
                                rr@,
                                rr0.len() as int,
                                rr@.len() as int,
                            );
                        }
                    }
                },
                Err(_) => {
                    proof {
                        assert(region_source(*board, loc) && required_at(*board, loc)
                            > hidden_nbrs(*board, loc).len());
                        assert(!(forall|l: (usize, usize)|
                            region_source(*board, l) ==> required_at(*board, l) <= (
                            #[trigger] hidden_nbrs(*board, l)).len()));
                    }
                    return Err(SolveError::EmptyFeasibilitySet);
                },
            }
            col += 1;
        }
        row += 1;
    }
    proof {
        assert forall|loc: (usize, usize)|
            region_source(*board, loc) implies required_at(*board, loc) <= (
        #[trigger] hidden_nbrs(*board, loc)).len() by {
            assert(loc.1 < h);
        }
        assert forall|loc: (usize, usize)|
            region_source(*board, loc) && required_at(*board, loc) == 0 implies (
        #[trigger] hidden_nbrs(*board, loc)).subset_of(zero_union(rr@)) by {
            assert(loc.1 < h);
        }
        assert forall|loc: (usize, usize)|
            region_source(*board, loc) && required_at(*board, loc) == hidden_nbrs(
                *board,
                loc,
            ).len() implies (#[trigger] hidden_nbrs(*board, loc)).subset_of(mined_union(rr@)) by {
            assert(loc.1 < h);
        }
    }
    Ok(rr)
}

/// One stripping round: pull the all-safe and the all-mine regions out,
/// then resolve the board region itself if it has become trivial, feeding
/// every conclusion back into all live structures.  Reports whether
/// anything moved.
fn strip_mine_and_empty_regions(
    regions: &mut Vec<Region>,
    g: &mut Region,
    fe: &mut IndexSet<(usize, usize)>,
    fm: &mut IndexSet<(usize, usize)>,
) -> (r: Result<bool, SolveError>)
    requires
        regions_ok(old(regions)@, *old(g)),
        found_ok(*old(g), loc_set(*old(fe)), loc_set(*old(fm))),
    ensures
        r matches Ok(changed) ==> {
            &&& regions_ok(final(regions)@, *final(g))
            &&& found_ok(*final(g), loc_set(*final(fe)), loc_set(*final(fm)))
            &&& final(g).req() + loc_set(*final(fm)).len() == old(g).req() + loc_set(
                *old(fm),
            ).len()
            &&& loc_set(*old(fe)).subset_of(loc_set(*final(fe)))
            &&& loc_set(*old(fm)).subset_of(loc_set(*final(fm)))
            &&& loc_set(*final(fe)).subset_of(loc_set(*old(fe)).union(old(g).locs()))
            &&& loc_set(*final(fm)).subset_of(loc_set(*old(fm)).union(old(g).locs()))
            &&& final(g).locs().subset_of(old(g).locs())
            &&& final(regions)@.len() <= old(regions)@.len()
            &&& zero_union(old(regions)@).subset_of(loc_set(*final(fe)))
            &&& (forall|i: int|
                0 <= i < old(regions)@.len() && (#[trigger] old(regions)@[i]).req()
                    == old(regions)@[i].locs().len() ==> old(regions)@[i].locs().subset_of(
                    loc_set(*final(fm)),
                ))
            &&& (old(g).req() == 0 ==> old(g).locs().subset_of(loc_set(*final(fe))))
            &&& (old(g).req() == old(g).locs().len() ==> old(g).locs().subset_of(
                loc_set(*final(fm)),
            ))
            &&& (changed ==> final(regions)@.len() < old(regions)@.len() || (final(regions)@.len()
                == old(regions)@.len() && final(g).locs().len() < old(g).locs().len()))
            &&& (!changed ==> {
                &&& forall|j: int|
                    0 <= j < final(regions)@.len() ==> 1 <= (#[trigger] final(regions)@[j]).req()
                        < final(regions)@[j].locs().len()
                &&& !(final(g).locs().len() > 0 && (final(g).req() == 0 || final(g).req()
                    == final(g).locs().len()))
            })
        },
        r is Err ==> r == Err::<bool, SolveError>(SolveError::EmptyFeasibilitySet),
        r is Ok ==> forall|a: Set<(usize, usize)>|
            #[trigger] state_sat(a, old(regions)@, *old(g), Seq::empty(), Set::empty(), Set::empty())
                ==> state_sat(a, final(regions)@, *final(g), Seq::empty(), Set::empty(), Set::empty())
                    && loc_set(*final(fe)).difference(loc_set(*old(fe))).disjoint(a) && loc_set(
                    *final(fm),
                ).difference(loc_set(*old(fm))).subset_of(a),
        (exists|a: Set<(usize, usize)>|
            state_sat(a, old(regions)@, *old(g), Seq::empty(), Set::empty(), Set::empty())) ==> (
        r is Ok && (exists|a: Set<(usize, usize)>|
            state_sat(a, final(regions)@, *final(g), Seq::empty(), Set::empty(), Set::empty()))),
{
    let ghost hyp = exists|a: Set<(usize, usize)>|
        state_sat(a, old(regions)@, *old(g), Seq::empty(), Set::empty(), Set::empty());
    let ghost a0 = choose|a: Set<(usize, usize)>|
        state_sat(a, old(regions)@, *old(g), Seq::empty(), Set::empty(), Set::empty());
    let mut changed = false;
    let mut nolinks: VecDeque<LinkedSubRegion> = VecDeque::new();
    let ghost nl0 = nolinks@;
    let ghost g0 = *g;
    let ghost regs0 = regions@;
    let ghost fm0 = loc_set(*fm);
    // Strip the all-safe regions.
    let mut taken: Vec<Region> = Vec::new();
    core::mem::swap(regions, &mut taken);
    let n_before = taken.len();
    let ghost regs0b = taken@;
    proof {
        if hyp {
            lemma_zero_union_disjoint(a0, regs0b, regs0b.len() as int);
            assert forall|i: int|
                0 <= i < regs0b.len() implies (#[trigger] regs0b[i]).req() <= regs0b[i].locs()
                .difference(zero_union(regs0b)).len() by {
                assert(region_sat(a0, regs0b[i].req() as int, regs0b[i].locs()));
                lemma_sat_after_removal(
                    a0,
                    regs0b[i].req() as int,
                    regs0b[i].locs(),
                    zero_union(regs0b),
                    Set::empty(),
                );
            }
        }
    }
    let sr = match Region::strip_zero_regions_from(taken) {
        Ok(sr) => sr,
        Err(e) => {
            proof {
                if hyp {
                    assert(false);
                }
            }
            return Err(e);
        },
    };
    let StrippedRegions { locs: zlocs, regions: kept } = sr;
    *regions = kept;
    if regions.len() != n_before {
        changed = true;
    }
    proof {
        lemma_zero_union_bound(regs0b, regs0b.len() as int, g0.locs());
        lemma_locs_union_bound(regs0b, regs0b.len() as int, g0.locs());
        assert forall|i: int|
            0 <= i < regions@.len() implies (#[trigger] regions@[i]).wf() && regions@[i].locs()
            .subset_of(g0.locs()) by {}
        if hyp {
            lemma_zero_union_disjoint(a0, regs0b, regs0b.len() as int);
            lemma_zero_residual_sat(a0, regs0b, regs0b.len() as int, zero_union(regs0b));
            assert forall|j: int| 0 <= j < regions@.len() implies region_sat(
                a0,
                (#[trigger] regions@[j]).req() as int,
                regions@[j].locs(),
            ) by {
                assert(region_models(regions@)[j] == zero_residual_upto(
                    regs0b,
                    regs0b.len() as int,
                    zero_union(regs0b),
                )[j]);
                assert(region_models(regions@)[j] == region_model(regions@[j]));
            }
        }
    }
    let ghost kept0 = regions@;
    let none1 = loc_set_new();
    proof {
        if hyp {
            assert(region_sat(a0, g.req() as int, g.locs()));
            assert(state_sat(a0, regions@, *g, nolinks@, loc_set(zlocs), loc_set(none1)));
        }
    }
    match algo::apply_known(regions, g, &mut nolinks, fe, fm, &zlocs, &none1) {
        Ok(()) => {},
        Err(e) => {
            proof {
                if hyp {
                    assert(false);
                }
            }
            return Err(e);
        },
    }
    let ghost g1 = *g;
    let ghost fm1 = loc_set(*fm);
    let ghost fe1s = loc_set(*fe);
    let ghost nl1 = nolinks@;
    proof {
        assert(loc_set(zlocs) == zero_union(regs0));
        assert(g1.req() == g0.req()) by {
            algo::lemma_disjoint_union_len(fm0, Set::<(usize, usize)>::empty());
            assert(fm1 =~= fm0);
        }
    }
    // Strip the all-mine regions.
    let ghost a1 = choose|a: Set<(usize, usize)>|
        state_sat(a, regions@, *g, nolinks@, Set::empty(), Set::empty());
    let mut taken2: Vec<Region> = Vec::new();
    core::mem::swap(regions, &mut taken2);
    let n_before2 = taken2.len();
    let ghost regs1b = taken2@;
    proof {
        if hyp {
            assert(state_sat(a1, regs1b, *g, nolinks@, Set::empty(), Set::empty()));
            lemma_mined_union_in_a(a1, regs1b, regs1b.len() as int);
            assert forall|i: int|
                0 <= i < regs1b.len() implies (#[trigger] regs1b[i]).locs().intersect(
                mined_union(regs1b),
            ).len() <= regs1b[i].req() by {
                assert(region_sat(a1, regs1b[i].req() as int, regs1b[i].locs()));
                assert(regs1b[i].locs().intersect(mined_union(regs1b)).subset_of(
                    regs1b[i].locs().intersect(a1),
                ));
                vstd::set_lib::lemma_len_subset(
                    regs1b[i].locs().intersect(mined_union(regs1b)),
                    regs1b[i].locs().intersect(a1),
                );
            }
        }
    }
    let sr2 = match Region::strip_mine_regions_from(taken2) {
        Ok(sr) => sr,
        Err(e) => {
            proof {
                if hyp {
                    assert(false);
                }
            }
            return Err(e);
        },
    };
    let StrippedRegions { locs: mlocs, regions: kept2 } = sr2;
    *regions = kept2;
    if regions.len() != n_before2 {
        changed = true;
    }
    proof {
        crate::solver::region::lemma_mined_union_bound(regs1b, regs1b.len() as int, g1.locs());
        lemma_locs_union_bound(regs1b, regs1b.len() as int, g1.locs());
        assert forall|i: int|
            0 <= i < regions@.len() implies (#[trigger] regions@[i]).wf() && regions@[i].locs()
            .subset_of(g1.locs()) by {}
        if hyp {
            lemma_mined_union_in_a(a1, regs1b, regs1b.len() as int);
            lemma_mined_residual_sat(a1, regs1b, regs1b.len() as int, mined_union(regs1b));
            assert forall|j: int| 0 <= j < regions@.len() implies region_sat(
                a1,
                (#[trigger] regions@[j]).req() as int,
                regions@[j].locs(),
            ) by {
                assert(region_models(regions@)[j] == mined_residual_upto(
                    regs1b,
                    regs1b.len() as int,
                    mined_union(regs1b),
                )[j]);
                assert(region_models(regions@)[j] == region_model(regions@[j]));
            }
        }
    }
    let ghost kept2v = regions@;
    let none2 = loc_set_new();
    proof {
        if hyp {
            assert(region_sat(a1, g.req() as int, g.locs()));
            assert(state_sat(a1, regions@, *g, nolinks@, loc_set(none2), loc_set(mlocs)));
        }
    }
    match algo::apply_known(regions, g, &mut nolinks, fe, fm, &none2, &mlocs) {
        Ok(()) => {},
        Err(e) => {
            proof {
                if hyp {
                    assert(false);
                }
            }
            return Err(e);
        },
    }
    let ghost g2 = *g;
    let ghost fm2 = loc_set(*fm);
    let ghost m2 = loc_set(mlocs);
    let ghost fe2s = loc_set(*fe);
    let ghost nl2 = nolinks@;
    let ghost regs2 = regions@;
    let ghost mut resolved: int = 0;
    let ghost mut cells_s: Set<(usize, usize)> = Set::empty();
    proof {
        algo::lemma_disjoint_union_len(fm1, m2);
        assert(fm2.len() == fm1.len() + m2.len());
        assert(g2.req() == g1.req() - m2.len());
        assert(m2.subset_of(g1.locs()));
        assert(g2.locs() =~= g1.locs().difference(m2));
        algo::lemma_disjoint_union_len(g2.locs(), m2);
        assert(g2.locs().union(m2) =~= g1.locs());
        assert(g2.locs().len() + m2.len() == g1.locs().len());
    }
    // Resolve the board region itself when it has become trivial.
    let ghost a2 = choose|a: Set<(usize, usize)>|
        state_sat(a, regions@, *g, nolinks@, Set::empty(), Set::empty());
    if g.hidden_len() > 0 && (g.is_all_empty() || g.is_all_mines()) {
        let cells = g.hidden_set();
        let none3 = loc_set_new();
        proof {
            cells_s = loc_set(cells);
            resolved = if g2.req() == 0 {
                1int
            } else {
                2int
            };
            if hyp {
                assert(state_sat(a2, regions@, *g, nolinks@, Set::empty(), Set::empty()));
                assert(g.locs().intersect(a2).len() == g.req());
                algo::lemma_forced_zone(a2, g.locs(), g.req() as int);
                if g.req() == 0 {
                    assert(state_sat(a2, regions@, *g, nolinks@, loc_set(cells), loc_set(none3)));
                } else {
                    assert(state_sat(a2, regions@, *g, nolinks@, loc_set(none3), loc_set(cells)));
                }
            }
        }
        let res = if g.is_all_empty() {
            algo::apply_known(regions, g, &mut nolinks, fe, fm, &cells, &none3)
        } else {
            algo::apply_known(regions, g, &mut nolinks, fe, fm, &none3, &cells)
        };
        match res {
            Ok(()) => {},
            Err(e) => {
                proof {
                    if hyp {
                        assert(false);
                    }
                }
                return Err(e);
            },
        }
        changed = true;
        proof {
            assert(g.locs() =~= Set::<(usize, usize)>::empty());
            assert(g.locs().len() == 0);
            assert(g2.locs().len() > 0);
        }
    }
    proof {
        // The safe side: the all-safe union of the input regions went to
        // `fe`, and so did the whole board region if it required nothing.
        assert(zero_union(regs0).subset_of(loc_set(*fe)));
        if g0.req() == 0 {
            assert(m2.len() <= g1.req()) by {
                assert(g2.req() + m2.len() == g1.req());
            }
            assert(m2.len() == 0);
            m2.lemma_len0_is_empty();
            assert(g2.locs() =~= g1.locs());
            assert(g1.locs() =~= g0.locs().difference(zero_union(regs0)));
            assert(g2.req() == 0);
            if g2.locs().len() > 0 {
                assert(g2.locs().subset_of(loc_set(*fe)));
            } else {
                g2.locs().lemma_len0_is_empty();
            }
            assert forall|p: (usize, usize)| g0.locs().contains(p) implies loc_set(
                *fe,
            ).contains(p) by {
                if g2.locs().contains(p) {
                } else {
                    assert(zero_union(regs0).contains(p));
                }
            }
        }
        // The mine side: every all-mine input region went to `fm`, and so
        // did the whole board region if all its cells must be mines.
        if g0.req() == g0.locs().len() {
            assert(g1.locs() =~= g0.locs().difference(loc_set(zlocs)));
            assert(loc_set(zlocs).subset_of(g0.locs()));
            algo::lemma_disjoint_union_len(g1.locs(), loc_set(zlocs).intersect(g0.locs()));
            assert(g1.locs().union(loc_set(zlocs).intersect(g0.locs())) =~= g0.locs());
            assert(g1.locs().len() + loc_set(zlocs).len() >= g0.locs().len()) by {
                vstd::set_lib::lemma_len_subset(
                    loc_set(zlocs).intersect(g0.locs()),
                    loc_set(zlocs),
                );
            }
            assert(g1.req() <= g1.locs().len());
            assert(loc_set(zlocs).intersect(g0.locs()) =~= loc_set(zlocs));
            assert(g1.locs().len() + loc_set(zlocs).len() == g0.locs().len());
            assert(loc_set(zlocs).len() == 0);
            loc_set(zlocs).lemma_len0_is_empty();
            assert(g1.locs() =~= g0.locs());
            assert(g2.req() == g2.locs().len()) by {
                assert(g1.req() == g1.locs().len());
            }
            if g2.locs().len() > 0 {
                assert(g2.locs().subset_of(loc_set(*fm)));
            } else {
                g2.locs().lemma_len0_is_empty();
            }
            assert forall|p: (usize, usize)| g0.locs().contains(p) implies loc_set(
                *fm,
            ).contains(p) by {
                if g2.locs().contains(p) {
                } else {
                    assert(m2.contains(p));
                    assert(fm2.contains(p));
                }
            }
        }
    }
    proof {
        let gf = *g;
        let fef = loc_set(*fe);
        let fmf = loc_set(*fm);
        assert(regions_ok(regions@, gf));
        assert(found_ok(gf, fef, fmf));
        assert(gf.req() + fmf.len() == g0.req() + fm0.len());
        assert(loc_set(*old(fe)).subset_of(fef));
        assert(loc_set(*old(fm)).subset_of(fmf));
        assert(gf.locs().subset_of(g0.locs()));
        assert(regions@.len() <= regs0.len());
        assert(zero_union(regs0).subset_of(fef));
        assert forall|i: int|
            0 <= i < regs0.len() && (#[trigger] regs0[i]).req() == regs0[i].locs().len() implies
        regs0[i].locs().subset_of(fmf) by {
            assert(regs0[i].locs().subset_of(mined_union(kept0)));
            assert forall|t: int|
                0 <= t < regs1b.len() implies (#[trigger] regs1b[t]).req() == kept0[t].req()
                    && regs1b[t].locs() == kept0[t].locs() by {
                assert(kept0[t].locs().disjoint(loc_set(zlocs)));
                assert(kept0[t].locs().intersect(loc_set(none1)) =~= Set::<(usize, usize)>::empty());
                assert(regs1b[t].locs() =~= kept0[t].locs());
            }
            crate::solver::region::lemma_mined_union_model(kept0, regs1b, kept0.len() as int);
            assert(mined_union(kept0) == mined_union(regs1b));
            assert(loc_set(mlocs) == mined_union(regs1b));
            assert(regs0[i].locs().subset_of(fm2));
            assert(fm2.subset_of(fmf));
        }
        assert(g0.req() == 0 ==> g0.locs().subset_of(fef));
        assert(g0.req() == g0.locs().len() ==> g0.locs().subset_of(fmf));
        assert(changed ==> regions@.len() < regs0.len() || (regions@.len() == regs0.len()
            && gf.locs().len() < g0.locs().len()));
        if hyp {
            let af = choose|a: Set<(usize, usize)>|
                state_sat(a, regions@, *g, nolinks@, Set::empty(), Set::empty());
            assert(state_sat(af, regions@, *g, Seq::empty(), Set::empty(), Set::empty()));
        }
        if !changed {
            // No region was stripped, so none was all-safe or all-mine, the
            // resolved unions were empty, and every model passed through the
            // round untouched.
            crate::solver::region::lemma_zero_residual_len(
                regs0b,
                regs0b.len() as int,
                zero_union(regs0b),
            );
            assert(forall|i: int| 0 <= i < regs0b.len() ==> (#[trigger] regs0b[i]).req() != 0);
            crate::solver::region::lemma_zero_union_empty(regs0b, regs0b.len() as int);
            assert(loc_set(zlocs) == Set::<(usize, usize)>::empty());
            assert forall|t: int|
                0 <= t < regs1b.len() implies (#[trigger] regs1b[t]).req() == kept0[t].req()
                && regs1b[t].locs() == kept0[t].locs() && regs1b[t].req() >= 1 by {
                assert(kept0[t].locs().intersect(loc_set(none1)) =~= Set::<(usize, usize)>::empty());
                assert(kept0[t].locs().difference(loc_set(zlocs).union(loc_set(none1)))
                    =~= kept0[t].locs());
            }
            crate::solver::region::lemma_mined_residual_len(
                regs1b,
                regs1b.len() as int,
                mined_union(regs1b),
            );
            assert(forall|t: int|
                0 <= t < regs1b.len() ==> (#[trigger] regs1b[t]).req() != regs1b[t].locs().len());
            crate::solver::region::lemma_mined_union_empty(regs1b, regs1b.len() as int);
            assert(loc_set(mlocs) == Set::<(usize, usize)>::empty());
            crate::solver::region::lemma_mined_residual_full(
                regs1b,
                regs1b.len() as int,
                mined_union(regs1b),
            );
            assert forall|t: int|
                0 <= t < kept2v.len() implies (#[trigger] kept2v[t]).req() == regs1b[t].req()
                && kept2v[t].locs() == regs1b[t].locs() by {
                assert(region_models(kept2v)[t] == mined_residual_upto(
                    regs1b,
                    regs1b.len() as int,
                    mined_union(regs1b),
                )[t]);
                assert(region_models(kept2v)[t] == region_model(kept2v[t]));
                assert(regs1b[t].locs().intersect(mined_union(regs1b))
                    =~= Set::<(usize, usize)>::empty());
                assert(regs1b[t].locs().difference(mined_union(regs1b)) =~= regs1b[t].locs());
            }
            assert forall|j: int|
                0 <= j < regions@.len() implies 1 <= (#[trigger] regions@[j]).req()
                < regions@[j].locs().len() by {
                assert(regions@[j].req() == kept2v[j].req() - kept2v[j].locs().intersect(
                    loc_set(mlocs),
                ).len() && regions@[j].locs() == kept2v[j].locs().difference(
                    loc_set(none2).union(loc_set(mlocs)),
                ));
                assert(kept2v[j].locs().intersect(loc_set(mlocs))
                    =~= Set::<(usize, usize)>::empty());
                assert(kept2v[j].locs().difference(loc_set(none2).union(loc_set(mlocs)))
                    =~= kept2v[j].locs());
                assert(regions@[j].req() == regs1b[j].req());
                assert(regions@[j].locs() == regs1b[j].locs());
                assert(regions@[j].wf());
            }
        }
    }
    proof {
        assert forall|a: Set<(usize, usize)>|
            #[trigger] state_sat(
                a,
                regs0,
                g0,
                Seq::empty(),
                Set::empty(),
                Set::empty(),
            ) implies state_sat(a, regions@, *g, Seq::empty(), Set::empty(), Set::empty())
            && loc_set(*fe).difference(loc_set(*old(fe))).disjoint(a) && loc_set(*fm).difference(
            loc_set(*old(fm)),
        ).subset_of(a) by {
            assert(regions_sat(a, regs0b));
            lemma_zero_union_disjoint(a, regs0b, regs0b.len() as int);
            lemma_zero_residual_sat(a, regs0b, regs0b.len() as int, zero_union(regs0b));
            assert forall|j: int| 0 <= j < kept0.len() implies region_sat(
                a,
                (#[trigger] kept0[j]).req() as int,
                kept0[j].locs(),
            ) by {
                assert(region_models(kept0)[j] == zero_residual_upto(
                    regs0b,
                    regs0b.len() as int,
                    zero_union(regs0b),
                )[j]);
                assert(region_models(kept0)[j] == region_model(kept0[j]));
            }
            assert(region_sat(a, g0.req() as int, g0.locs()));
            assert(state_sat(a, kept0, g0, nl0, loc_set(zlocs), loc_set(none1)));
            assert(state_sat(a, regs1b, g1, nl1, Set::empty(), Set::empty()));
            lemma_mined_union_in_a(a, regs1b, regs1b.len() as int);
            lemma_mined_residual_sat(a, regs1b, regs1b.len() as int, mined_union(regs1b));
            assert forall|j: int| 0 <= j < kept2v.len() implies region_sat(
                a,
                (#[trigger] kept2v[j]).req() as int,
                kept2v[j].locs(),
            ) by {
                assert(region_models(kept2v)[j] == mined_residual_upto(
                    regs1b,
                    regs1b.len() as int,
                    mined_union(regs1b),
                )[j]);
                assert(region_models(kept2v)[j] == region_model(kept2v[j]));
            }
            assert(loc_set(mlocs) == mined_union(regs1b));
            assert(state_sat(a, kept2v, g1, nl1, loc_set(none2), loc_set(mlocs)));
            assert(state_sat(a, regs2, g2, nl2, Set::empty(), Set::empty()));
            if resolved != 0 {
                assert(g2.locs().intersect(a).len() == g2.req());
                algo::lemma_forced_zone(a, g2.locs(), g2.req() as int);
                if resolved == 1 {
                    assert(g2.locs().disjoint(a));
                    assert(state_sat(a, regs2, g2, nl2, cells_s, Set::empty()));
                } else {
                    assert(g2.req() == g2.locs().len());
                    assert(g2.locs().subset_of(a));
                    assert(state_sat(a, regs2, g2, nl2, Set::empty(), cells_s));
                }
                assert(state_sat(a, regions@, *g, nolinks@, Set::empty(), Set::empty()));
            } else {
                assert(state_sat(a, regions@, *g, nl2, Set::empty(), Set::empty()));
            }
            assert(state_sat(a, regions@, *g, Seq::empty(), Set::empty(), Set::empty()));
            assert forall|p: (usize, usize)|
                loc_set(*fe).difference(loc_set(*old(fe))).contains(p) implies !a.contains(p) by {
                if loc_set(zlocs).contains(p) {
                    assert(zero_union(regs0b).contains(p));
                } else if resolved == 1 && cells_s.contains(p) {
                    assert(g2.locs().contains(p));
                } else {
                    assert(loc_set(*old(fe)).contains(p));
                    assert(false);
                }
            }
            assert forall|p: (usize, usize)|
                loc_set(*fm).difference(loc_set(*old(fm))).contains(p) implies a.contains(p) by {
                if loc_set(mlocs).contains(p) {
                    assert(mined_union(regs1b).contains(p));
                } else if resolved == 2 && cells_s.contains(p) {
                    assert(g2.locs().contains(p));
                } else {
                    assert(loc_set(*old(fm)).contains(p));
                    assert(false);
                }
            }
        }
    }
    Ok(changed)
}

/// Strip trivial regions round after round until a round moves nothing.
fn strip_to_fixpoint(
    regions: &mut Vec<Region>,
    g: &mut Region,
    fe: &mut IndexSet<(usize, usize)>,
    fm: &mut IndexSet<(usize, usize)>,
) -> (r: Result<(), SolveError>)
    requires
        regions_ok(old(regions)@, *old(g)),
        found_ok(*old(g), loc_set(*old(fe)), loc_set(*old(fm))),
    ensures
        r is Ok ==> {
            &&& regions_ok(final(regions)@, *final(g))
            &&& found_ok(*final(g), loc_set(*final(fe)), loc_set(*final(fm)))
            &&& final(g).req() + loc_set(*final(fm)).len() == old(g).req() + loc_set(
                *old(fm),
            ).len()
            &&& loc_set(*old(fe)).subset_of(loc_set(*final(fe)))
            &&& loc_set(*old(fm)).subset_of(loc_set(*final(fm)))
            &&& loc_set(*final(fe)).subset_of(loc_set(*old(fe)).union(old(g).locs()))
            &&& loc_set(*final(fm)).subset_of(loc_set(*old(fm)).union(old(g).locs()))
            &&& final(g).locs().subset_of(old(g).locs())
            &&& zero_union(old(regions)@).subset_of(loc_set(*final(fe)))
            &&& (forall|i: int|
                0 <= i < old(regions)@.len() && (#[trigger] old(regions)@[i]).req()
                    == old(regions)@[i].locs().len() ==> old(regions)@[i].locs().subset_of(
                    loc_set(*final(fm)),
                ))
            &&& (old(g).req() == 0 ==> old(g).locs().subset_of(loc_set(*final(fe))))
            &&& (old(g).req() == old(g).locs().len() ==> old(g).locs().subset_of(
                loc_set(*final(fm)),
            ))
            &&& forall|j: int|
                0 <= j < final(regions)@.len() ==> 1 <= (#[trigger] final(regions)@[j]).req()
                    < final(regions)@[j].locs().len()
            &&& !(final(g).locs().len() > 0 && (final(g).req() == 0
                || final(g).req() == final(g).locs().len()))
        },
        r is Err ==> r == Err::<(), SolveError>(SolveError::EmptyFeasibilitySet),
        r is Ok ==> forall|a: Set<(usize, usize)>|
            #[trigger] state_sat(a, old(regions)@, *old(g), Seq::empty(), Set::empty(), Set::empty())
                ==> state_sat(a, final(regions)@, *final(g), Seq::empty(), Set::empty(), Set::empty())
                    && loc_set(*final(fe)).difference(loc_set(*old(fe))).disjoint(a) && loc_set(
                    *final(fm),
                ).difference(loc_set(*old(fm))).subset_of(a),
        (exists|a: Set<(usize, usize)>|
            state_sat(a, old(regions)@, *old(g), Seq::empty(), Set::empty(), Set::empty())) ==> (
        r is Ok && (exists|a: Set<(usize, usize)>|
            state_sat(a, final(regions)@, *final(g), Seq::empty(), Set::empty(), Set::empty()))),
{
    let ghost regs0 = regions@;
    let ghost g0 = *g;
    let ghost hyp = exists|a: Set<(usize, usize)>|
        state_sat(a, old(regions)@, *old(g), Seq::empty(), Set::empty(), Set::empty());
    let mut ch = match strip_mine_and_empty_regions(regions, g, fe, fm) {
        Ok(c) => c,
        Err(e) => {
            proof {
                if hyp {
                    assert(false);
                }
            }
            return Err(e);
        },
    };
    while ch
        invariant
            regions_ok(regions@, *g),
            found_ok(*g, loc_set(*fe), loc_set(*fm)),
            g.req() + loc_set(*fm).len() == g0.req() + loc_set(*old(fm)).len(),
            loc_set(*old(fe)).subset_of(loc_set(*fe)),
            loc_set(*old(fm)).subset_of(loc_set(*fm)),
            loc_set(*fe).subset_of(loc_set(*old(fe)).union(g0.locs())),
            loc_set(*fm).subset_of(loc_set(*old(fm)).union(g0.locs())),
            g.locs().subset_of(g0.locs()),
            zero_union(regs0).subset_of(loc_set(*fe)),
            forall|i: int|
                0 <= i < regs0.len() && (#[trigger] regs0[i]).req() == regs0[i].locs().len()
                    ==> regs0[i].locs().subset_of(loc_set(*fm)),
            g0.req() == 0 ==> g0.locs().subset_of(loc_set(*fe)),
            g0.req() == g0.locs().len() ==> g0.locs().subset_of(loc_set(*fm)),
            hyp == (exists|a: Set<(usize, usize)>|
                state_sat(a, old(regions)@, *old(g), Seq::empty(), Set::empty(), Set::empty())),
            hyp ==> (exists|a: Set<(usize, usize)>|
                state_sat(a, regions@, *g, Seq::empty(), Set::empty(), Set::empty())),
            forall|a: Set<(usize, usize)>|
                #[trigger] state_sat(
                    a,
                    old(regions)@,
                    *old(g),
                    Seq::empty(),
                    Set::empty(),
                    Set::empty(),
                ) ==> state_sat(a, regions@, *g, Seq::empty(), Set::empty(), Set::empty())
                    && loc_set(*fe).difference(loc_set(*old(fe))).disjoint(a) && loc_set(
                    *fm,
                ).difference(loc_set(*old(fm))).subset_of(a),
            !ch ==> (forall|j: int|
                0 <= j < regions@.len() ==> 1 <= (#[trigger] regions@[j]).req()
                    < regions@[j].locs().len()),
            !ch ==> !(g.locs().len() > 0 && (g.req() == 0 || g.req() == g.locs().len())),
        ensures
            regions_ok(regions@, *g),
            found_ok(*g, loc_set(*fe), loc_set(*fm)),
            g.req() + loc_set(*fm).len() == g0.req() + loc_set(*old(fm)).len(),
            loc_set(*old(fe)).subset_of(loc_set(*fe)),
            loc_set(*old(fm)).subset_of(loc_set(*fm)),
            loc_set(*fe).subset_of(loc_set(*old(fe)).union(g0.locs())),
            loc_set(*fm).subset_of(loc_set(*old(fm)).union(g0.locs())),
            g.locs().subset_of(g0.locs()),
            zero_union(regs0).subset_of(loc_set(*fe)),
            forall|i: int|
                0 <= i < regs0.len() && (#[trigger] regs0[i]).req() == regs0[i].locs().len()
                    ==> regs0[i].locs().subset_of(loc_set(*fm)),
            g0.req() == 0 ==> g0.locs().subset_of(loc_set(*fe)),
            g0.req() == g0.locs().len() ==> g0.locs().subset_of(loc_set(*fm)),
            hyp == (exists|a: Set<(usize, usize)>|
                state_sat(a, old(regions)@, *old(g), Seq::empty(), Set::empty(), Set::empty())),
            hyp ==> (exists|a: Set<(usize, usize)>|
                state_sat(a, regions@, *g, Seq::empty(), Set::empty(), Set::empty())),
            forall|a: Set<(usize, usize)>|
                #[trigger] state_sat(
                    a,
                    old(regions)@,
                    *old(g),
                    Seq::empty(),
                    Set::empty(),
                    Set::empty(),
                ) ==> state_sat(a, regions@, *g, Seq::empty(), Set::empty(), Set::empty())
                    && loc_set(*fe).difference(loc_set(*old(fe))).disjoint(a) && loc_set(
                    *fm,
                ).difference(loc_set(*old(fm))).subset_of(a),
            forall|j: int|
                0 <= j < regions@.len() ==> 1 <= (#[trigger] regions@[j]).req()
                    < regions@[j].locs().len(),
            !(g.locs().len() > 0 && (g.req() == 0 || g.req() == g.locs().len())),
        decreases regions@.len(), g.locs().len(),
    {
        let ghost regs_pre = regions@;
        let ghost g_pre = *g;
        let ghost fe_pre = loc_set(*fe);
        let ghost fm_pre = loc_set(*fm);
        ch = match strip_mine_and_empty_regions(regions, g, fe, fm) {
            Ok(c) => c,
            Err(e) => {
                proof {
                    if hyp {
                        assert(false);
                    }
                }
                return Err(e);
            },
        };
        proof {
            assert forall|a: Set<(usize, usize)>|
                #[trigger] state_sat(
                    a,
                    old(regions)@,
                    *old(g),
                    Seq::empty(),
                    Set::empty(),
                    Set::empty(),
                ) implies state_sat(a, regions@, *g, Seq::empty(), Set::empty(), Set::empty())
                && loc_set(*fe).difference(loc_set(*old(fe))).disjoint(a) && loc_set(
                *fm,
            ).difference(loc_set(*old(fm))).subset_of(a) by {
                assert(state_sat(a, regs_pre, g_pre, Seq::empty(), Set::empty(), Set::empty()));
                assert(fe_pre.difference(loc_set(*old(fe))).disjoint(a));
                assert(fm_pre.difference(loc_set(*old(fm))).subset_of(a));
                assert(loc_set(*fe).difference(fe_pre).disjoint(a));
                assert(loc_set(*fm).difference(fm_pre).subset_of(a));
                assert forall|p: (usize, usize)|
                    loc_set(*fe).difference(loc_set(*old(fe))).contains(p) implies !a.contains(
                    p,
                ) by {
                    if fe_pre.contains(p) {
                        assert(fe_pre.difference(loc_set(*old(fe))).contains(p));
                    } else {
                        assert(loc_set(*fe).difference(fe_pre).contains(p));
                    }
                }
                assert forall|p: (usize, usize)|
                    loc_set(*fm).difference(loc_set(*old(fm))).contains(p) implies a.contains(
                    p,
                ) by {
                    if fm_pre.contains(p) {
                        assert(fm_pre.difference(loc_set(*old(fm))).contains(p));
                    } else {
                        assert(loc_set(*fm).difference(fm_pre).contains(p));
                    }
                }
            }
        }
        if !ch {
            break ;
        }
    }
    Ok(())
}

/// Pairwise links among the regions of one cluster.
fn build_cluster_links(regions: &Vec<Region>, group: &Vec<usize>, g: &Region) -> (r: Result<
    VecDeque<LinkedSubRegion>,
    SolveError,
>)
    requires
        regions_ok(regions@, *g),
        forall|k: int| 0 <= k < group@.len() ==> (#[trigger] group@[k]) < regions@.len(),
    ensures
        r matches Ok(q) ==> links_ok(q@, *g),
        r is Err ==> r == Err::<VecDeque<LinkedSubRegion>, SolveError>(
            SolveError::EmptyFeasibilitySet,
        ),
        (exists|w: Set<(usize, usize)>| w.finite() && crate::solver::region::regions_sat(
            w,
            regions@,
        )) ==> r is Ok,
        r matches Ok(q) ==> (forall|w: Set<(usize, usize)>|
            w.finite() && crate::solver::region::regions_sat(w, regions@) ==> links_sat(w, q@)),
{
    let mut q: VecDeque<LinkedSubRegion> = VecDeque::new();
    let mut a: usize = 0;
    while a < group.len()
        invariant
            regions_ok(regions@, *g),
            forall|k: int| 0 <= k < group@.len() ==> (#[trigger] group@[k]) < regions@.len(),
            a <= group@.len(),
            links_ok(q@, *g),
            forall|w: Set<(usize, usize)>|
                w.finite() && crate::solver::region::regions_sat(w, regions@) ==> links_sat(
                    w,
                    q@,
                ),
        decreases group@.len() - a,
    {
        let mut b: usize = a + 1;
        while b < group.len()
            invariant
                regions_ok(regions@, *g),
                forall|k: int| 0 <= k < group@.len() ==> (#[trigger] group@[k]) < regions@.len(),
                a < group@.len(),
                b <= group@.len(),
                links_ok(q@, *g),
                forall|w: Set<(usize, usize)>|
                    w.finite() && crate::solver::region::regions_sat(w, regions@) ==> links_sat(
                        w,
                        q@,
                    ),
            decreases group@.len() - b,
        {
            let i = group[a];
            let j = group[b];
            match LinkedSubRegion::deduce_links(&regions[i], &regions[j]) {
                Ok(None) => {},
                Ok(Some(l)) => {
                    proof {
                        assert(regions@[i as int].locs().subset_of(g.locs()));
                        assert(regions@[j as int].locs().subset_of(g.locs()));
                        assert(l.cells().subset_of(g.locs()));
                        assert(link_ok(l, *g));
                        assert forall|w: Set<(usize, usize)>|
                            w.finite() && crate::solver::region::regions_sat(
                                w,
                                regions@,
                            ) implies link_sat(w, l) by {
                            lemma_deduced_link_sat(
                                w,
                                regions@[i as int],
                                regions@[j as int],
                                l,
                            );
                        }
                    }
                    let ghost q0 = q@;
                    q.push_back(l);
                    proof {
                        assert forall|t: int| 0 <= t < q@.len() implies link_ok(
                            #[trigger] q@[t],
                            *g,
                        ) by {
                            if t < q0.len() {
                                assert(q@[t] == q0[t]);
                            }
                        }
                        assert forall|w: Set<(usize, usize)>|
                            w.finite() && crate::solver::region::regions_sat(
                                w,
                                regions@,
                            ) implies links_sat(w, q@) by {
                            assert(links_sat(w, q0));
                            assert forall|t: int| 0 <= t < q@.len() implies link_sat(
                                w,
                                #[trigger] q@[t],
                            ) by {
                                if t < q0.len() {
                                    assert(q@[t] == q0[t]);
                                } else {
                                    assert(q@[t] == l);
                                    lemma_deduced_link_sat(
                                        w,
                                        regions@[i as int],
                                        regions@[j as int],
                                        l,
                                    );
                                }
                            }
                        }
                    }
                },
                Err(e) => {
                    proof {
                        if exists|w: Set<(usize, usize)>|
                            w.finite() && crate::solver::region::regions_sat(w, regions@) {
                            let w = choose|w: Set<(usize, usize)>|
                                w.finite() && crate::solver::region::regions_sat(w, regions@);
                            lemma_sat_split_bounds(
                                w,
                                regions@[i as int].req() as int,
                                regions@[j as int].req() as int,
                                regions@[i as int].locs(),
                                regions@[j as int].locs(),
                            );
                            assert(false);
                        }
                    }
                    return Err(e);
                },
            }
            b += 1;
        }
        a += 1;
    }
    Ok(q)
}

/// Two satisfied overlapping regions always leave the assignment's own split
/// among a fresh link's feasible set.
proof fn lemma_deduced_link_sat(w: Set<(usize, usize)>, p0: Region, p1: Region, l: LinkedSubRegion)
    requires
        w.finite(),
        p0.wf(),
        p1.wf(),
        crate::solver::region::region_sat(w, p0.req() as int, p0.locs()),
        crate::solver::region::region_sat(w, p1.req() as int, p1.locs()),
        l.zone0() == p0.locs().difference(p1.locs()),
        l.zone_s() == p0.locs().intersect(p1.locs()),
        l.zone1() == p1.locs().difference(p0.locs()),
        forall|t: (usize, usize, usize)|
            l.feasible().contains(t) <==> (vstd::math::max(
                0,
                vstd::math::max(
                    p0.req() - p0.locs().difference(p1.locs()).len(),
                    p1.req() - p1.locs().difference(p0.locs()).len(),
                ),
            ) <= #[trigger] t.1 <= vstd::math::min(
                p0.locs().intersect(p1.locs()).len() as int,
                vstd::math::min(p0.req() as int, p1.req() as int),
            ) && t.0 == p0.req() - t.1 && t.2 == p1.req() - t.1),
    ensures
        link_sat(w, l),
{
    lemma_sat_split_bounds(w, p0.req() as int, p1.req() as int, p0.locs(), p1.locs());
    let q0 = p0.req() as int;
    let q1 = p1.req() as int;
    let ms = p0.locs().intersect(p1.locs()).intersect(w).len() as int;
    let m0 = p0.locs().difference(p1.locs()).intersect(w).len() as int;
    let m1 = p1.locs().difference(p0.locs()).intersect(w).len() as int;
    assert(q0 == m0 + ms && q1 == ms + m1);
    assert(0 <= ms && ms <= q0 && ms <= q1);
    assert(ms <= p0.locs().intersect(p1.locs()).len() as int);
    assert(q0 - p0.locs().difference(p1.locs()).len() as int <= ms);
    assert(q1 - p1.locs().difference(p0.locs()).len() as int <= ms);
    let t = (((q0 - ms) as usize), (ms as usize), ((q1 - ms) as usize));
    assert(t.1 as int == ms && t.0 as int == q0 - ms && t.2 as int == q1 - ms);
    assert(l.feasible().contains(t));
    assert(t.0 == l.zone0().intersect(w).len());
    assert(t.1 == l.zone_s().intersect(w).len());
    assert(t.2 == l.zone1().intersect(w).len());
}

/// Links of the whole-board region against every residual region.
fn build_global_links(regions: &Vec<Region>, g: &Region) -> (r: Result<
    VecDeque<LinkedSubRegion>,
    SolveError,
>)
    requires
        regions_ok(regions@, *g),
        g.wf(),
    ensures
        r matches Ok(q) ==> links_ok(q@, *g),
        r is Err ==> r == Err::<VecDeque<LinkedSubRegion>, SolveError>(
            SolveError::EmptyFeasibilitySet,
        ),
        (exists|w: Set<(usize, usize)>|
            w.finite() && crate::solver::region::regions_sat(w, regions@)
                && crate::solver::region::region_sat(w, g.req() as int, g.locs())) ==> r is Ok,
        r matches Ok(q) ==> (forall|w: Set<(usize, usize)>|
            w.finite() && crate::solver::region::regions_sat(w, regions@)
                && crate::solver::region::region_sat(w, g.req() as int, g.locs()) ==> links_sat(
                w,
                q@,
            )),
{
    let mut q: VecDeque<LinkedSubRegion> = VecDeque::new();
    let mut i: usize = 0;
    while i < regions.len()
        invariant
            regions_ok(regions@, *g),
            g.wf(),
            i <= regions@.len(),
            links_ok(q@, *g),
            forall|w: Set<(usize, usize)>|
                w.finite() && crate::solver::region::regions_sat(w, regions@)
                    && crate::solver::region::region_sat(w, g.req() as int, g.locs())
                    ==> links_sat(w, q@),
        decreases regions@.len() - i,
    {
        match LinkedSubRegion::deduce_links(g, &regions[i]) {
            Ok(None) => {},
            Ok(Some(l)) => {
                proof {
                    assert(regions@[i as int].locs().subset_of(g.locs()));
                    assert(l.cells().subset_of(g.locs()));
                    assert(link_ok(l, *g));
                }
                let ghost q0 = q@;
                q.push_back(l);
                proof {
                    assert forall|t: int| 0 <= t < q@.len() implies link_ok(
                        #[trigger] q@[t],
                        *g,
                    ) by {
                        if t < q0.len() {
                            assert(q@[t] == q0[t]);
                        }
                    }
                    assert forall|w: Set<(usize, usize)>|
                        w.finite() && crate::solver::region::regions_sat(w, regions@)
                            && crate::solver::region::region_sat(
                            w,
                            g.req() as int,
                            g.locs(),
                        ) implies links_sat(w, q@) by {
                        assert(links_sat(w, q0));
                        assert forall|t: int| 0 <= t < q@.len() implies link_sat(
                            w,
                            #[trigger] q@[t],
                        ) by {
                            if t < q0.len() {
                                assert(q@[t] == q0[t]);
                            } else {
                                assert(q@[t] == l);
                                lemma_deduced_link_sat(w, *g, regions@[i as int], l);
                            }
                        }
                    }
                }
            },
            Err(e) => {
                proof {
                    if exists|w: Set<(usize, usize)>|
                        w.finite() && crate::solver::region::regions_sat(w, regions@)
                            && crate::solver::region::region_sat(w, g.req() as int, g.locs()) {
                        let w = choose|w: Set<(usize, usize)>|
                            w.finite() && crate::solver::region::regions_sat(w, regions@)
                                && crate::solver::region::region_sat(
                                w,
                                g.req() as int,
                                g.locs(),
                            );
                        lemma_sat_split_bounds(
                            w,
                            g.req() as int,
                            regions@[i as int].req() as int,
                            g.locs(),
                            regions@[i as int].locs(),
                        );
                        assert(false);
                    }
                }
                return Err(e);
            },
        }
        i += 1;
    }
    Ok(q)
}

/// The cells a solve result reports safe.
pub open spec fn known_empty(r: Result<Option<KnownCells>, SolveError>) -> Set<(usize, usize)> {
    match r {
        Ok(Some(kc)) => loc_set(kc.empty),
        _ => Set::empty(),
    }
}

/// The cells a solve result reports as mines.
pub open spec fn known_mines(r: Result<Option<KnownCells>, SolveError>) -> Set<(usize, usize)> {
    match r {
        Ok(Some(kc)) => loc_set(kc.mines),
        _ => Set::empty(),
    }
}

/// The deduction engine's working state for one board.
pub struct Solver<'a> {
    pub board: &'a Board,
    board_region: Region,
    valid_regions: Vec<Region>,
    found_empty_locs: IndexSet<(usize, usize)>,
    found_mine_locs: IndexSet<(usize, usize)>,
}

impl<'a> Solver<'a> {
    /// The board under analysis.
    pub closed spec fn spec_board(self) -> Board {
        *self.board
    }

    /// The whole-board region as the last solve call left it.
    pub closed spec fn spec_board_region(self) -> Region {
        self.board_region
    }

    /// The cells the last solve call concluded are safe.
    pub closed spec fn found_empty(self) -> Set<(usize, usize)> {
        loc_set(self.found_empty_locs)
    }

    /// The cells the last solve call concluded are mines.
    pub closed spec fn found_mines(self) -> Set<(usize, usize)> {
        loc_set(self.found_mine_locs)
    }

    /// A fresh solver for a board.
    pub fn new(board: &'a Board) -> (s: Solver<'a>)
        ensures
            s.spec_board() == *board,
            s.found_empty() == Set::<(usize, usize)>::empty(),
            s.found_mines() == Set::<(usize, usize)>::empty(),
    {
        Solver {
            board,
            board_region: Region::new(0, loc_set_new()),
            valid_regions: Vec::new(),
            found_empty_locs: loc_set_new(),
            found_mine_locs: loc_set_new(),
        }
    }

    /// Deduce every hidden cell that is provably safe or provably a mine.
    ///
    /// `Ok(None)` means no certain conclusion exists; `Ok(Some(..))` carries
    /// the conclusions; the errors report marks inconsistent with the
    /// board.  The safe and the mine sets never overlap; a region that
    /// requires no mines gives up all its cells as safe, and one that needs
    /// as many mines as it has cells gives them all up as mines, the
    /// whole-board region included; and the mines still unplaced in the
    /// board region plus the mines found always account for every mine not
    /// yet marked.
    pub fn calculate_known_cells(&mut self) -> (r: Result<Option<KnownCells>, SolveError>)
        requires
            old(self).spec_board().wf_shape(),
        ensures
            final(self).spec_board() == old(self).spec_board(),
            ({
                let b = old(self).spec_board();
                &&& (r == Err::<Option<KnownCells>, SolveError>(SolveError::FlagOvercount)
                    <==> crate::solver::region::flag_overcount(b))
                &&& (consistent(b) ==> r is Ok)
                &&& (r is Ok && consistent(b) ==> final(self).found_mines().subset_of(
                    true_mines(b),
                ) && final(self).found_empty().disjoint(true_mines(b)))
                &&& (r is Ok ==> known_empty(r).disjoint(known_mines(r)))
                &&& (r is Ok ==> known_empty(r).union(known_mines(r)).subset_of(hidden_cells(b)))
                &&& (r is Ok ==> forall|loc: (usize, usize)|
                    region_source(b, loc) && required_at(b, loc) == 0 ==> (#[trigger] hidden_nbrs(
                        b,
                        loc,
                    )).subset_of(known_empty(r)))
                &&& (r is Ok ==> forall|loc: (usize, usize)|
                    region_source(b, loc) && required_at(b, loc) == hidden_nbrs(b, loc).len()
                        ==> (#[trigger] hidden_nbrs(b, loc)).subset_of(known_mines(r)))
                &&& (r is Ok && marked_cells(b).len() == mine_cells(b).len() ==> hidden_cells(
                    b,
                ).subset_of(known_empty(r)))
                &&& (r is Ok && mine_cells(b).len() - marked_cells(b).len() == hidden_cells(
                    b,
                ).len() ==> hidden_cells(b).subset_of(known_mines(r)))
                &&& (r is Ok ==> marked_cells(b).len() <= mine_cells(b).len()
                    && final(self).spec_board_region().req() + final(self).found_mines().len()
                    == mine_cells(b).len() - marked_cells(b).len())
                &&& (r matches Ok(Some(kc)) ==> loc_set(kc.empty) == final(self).found_empty()
                    && loc_set(kc.mines) == final(self).found_mines() && !(loc_set(
                    kc.empty,
                ).is_empty() && loc_set(kc.mines).is_empty()))
                &&& (r == Ok::<Option<KnownCells>, SolveError>(None::<KnownCells>)
                    ==> final(self).found_empty().is_empty() && final(self).found_mines().is_empty())
            }),
    {
        self.found_empty_locs = loc_set_new();
        self.found_mine_locs = loc_set_new();
        let board = self.board;
        let ghost b = *board;
        if find_overcount(board) {
            proof {
                if consistent(b) {
                    let loc = choose|loc: (usize, usize)| flag_overcount_at(b, loc);
                    lemma_consistent_required(b, loc);
                    assert(false);
                }
            }
            return Err(SolveError::FlagOvercount);
        }
        let g = match Region::board(board) {
            Ok(g) => g,
            Err(e) => {
                proof {
                    if e == SolveError::FlagOvercount {
                        assert(crate::solver::region::board_flag_overcount(b));
                    } else {
                        assert(!crate::solver::region::flag_overcount(b));
                    }
                    if consistent(b) {
                        crate::solver::region::lemma_consistent_global(b);
                        vstd::set_lib::lemma_len_subset(
                            hidden_cells(b).intersect(true_mines(b)),
                            hidden_cells(b),
                        );
                        assert(false);
                    }
                }
                return Err(e);
            },
        };
        let rr = match extract_regions(board) {
            Ok(rr) => rr,
            Err(e) => {
                proof {
                    if consistent(b) {
                        let loc = choose|loc: (usize, usize)|
                            region_source(b, loc) && required_at(b, loc) > hidden_nbrs(
                                b,
                                loc,
                            ).len();
                        lemma_consistent_required(b, loc);
                        vstd::set_lib::lemma_len_subset(
                            hidden_nbrs(b, loc).intersect(true_mines(b)),
                            hidden_nbrs(b, loc),
                        );
                        assert(false);
                    }
                }
                return Err(e);
            },
        };
        let mut rr = rr;
        let mut g = g;
        let ghost rr0 = rr@;
        let ghost g0 = g;
        proof {
            assert(!crate::solver::region::flag_overcount(b));
            assert(g0.locs() == hidden_cells(b));
            assert(regions_ok(rr@, g));
            assert(found_ok(g, loc_set(self.found_empty_locs), loc_set(self.found_mine_locs)));
            if consistent(b) {
                let aw = true_mines(b);
                crate::solver::region::lemma_consistent_global(b);
                assert forall|i: int| 0 <= i < rr@.len() implies region_sat(
                    aw,
                    (#[trigger] rr@[i]).req() as int,
                    rr@[i].locs(),
                ) by {
                    assert(from_source(b, rr@[i]));
                    let loc = choose|loc: (usize, usize)|
                        region_source(b, loc) && rr@[i].req() == required_at(b, loc)
                            && rr@[i].locs() == #[trigger] hidden_nbrs(b, loc);
                    lemma_consistent_required(b, loc);
                }
                assert(region_sat(aw, g.req() as int, g.locs()));
                assert(state_sat(aw, rr@, g, Seq::empty(), Set::empty(), Set::empty()));
            }
        }
        match strip_to_fixpoint(
            &mut rr,
            &mut g,
            &mut self.found_empty_locs,
            &mut self.found_mine_locs,
        ) {
            Ok(()) => {},
            Err(e) => {
                proof {
                    if consistent(b) {
                        assert(false);
                    }
                }
                return Err(e);
            },
        }
        let ghost fe_s = loc_set(self.found_empty_locs);
        let ghost fm_s = loc_set(self.found_mine_locs);
        proof {
            lemma_mined_union_in(rr0, rr0.len() as int, fm_s);
            if consistent(b) {
                let aw = true_mines(b);
                assert(state_sat(aw, rr@, g, Seq::empty(), Set::empty(), Set::empty()));
                assert(fe_s.difference(Set::<(usize, usize)>::empty()) =~= fe_s);
                assert(fm_s.difference(Set::<(usize, usize)>::empty()) =~= fm_s);
                assert(fe_s.disjoint(aw));
                assert(fm_s.subset_of(aw));
            }
        }
        let groups = cc::run(&rr);
        let mut gi: usize = 0;
        while gi < groups.len()
            invariant
                self.board == old(self).board,
                b == old(self).spec_board(),
                !crate::solver::region::flag_overcount(b),
                regions_ok(rr@, g),
                found_ok(g, loc_set(self.found_empty_locs), loc_set(self.found_mine_locs)),
                g.req() + loc_set(self.found_mine_locs).len() == g0.req(),
                fe_s.subset_of(loc_set(self.found_empty_locs)),
                fm_s.subset_of(loc_set(self.found_mine_locs)),
                loc_set(self.found_empty_locs).subset_of(hidden_cells(b)),
                loc_set(self.found_mine_locs).subset_of(hidden_cells(b)),
                g.locs().subset_of(hidden_cells(b)),
                consistent(b) ==> (exists|a: Set<(usize, usize)>|
                    state_sat(a, rr@, g, Seq::empty(), Set::empty(), Set::empty())),
                consistent(b) ==> state_sat(
                    true_mines(b),
                    rr@,
                    g,
                    Seq::empty(),
                    Set::empty(),
                    Set::empty(),
                ) && loc_set(self.found_empty_locs).disjoint(true_mines(b)) && loc_set(
                    self.found_mine_locs,
                ).subset_of(true_mines(b)),
                gi <= groups@.len(),
                rr@.len() >= 0,
                forall|gg: int, k: int|
                    0 <= gg < groups@.len() && 0 <= k < groups@[gg]@.len() ==> (
                    #[trigger] groups@[gg]@[k]) < rr@.len(),
            decreases groups@.len() - gi,
        {
            let ghost rr_p = rr@;
            let ghost g_p = g;
            let ghost fe_p = loc_set(self.found_empty_locs);
            let ghost fm_p = loc_set(self.found_mine_locs);
            let links = match build_cluster_links(&rr, &groups[gi], &g) {
                Ok(q) => q,
                Err(e) => {
                    proof {
                        if consistent(b) {
                            let a = choose|a: Set<(usize, usize)>|
                                state_sat(a, rr@, g, Seq::empty(), Set::empty(), Set::empty());
                            assert(a.finite() && regions_sat(a, rr@));
                            assert(false);
                        }
                    }
                    return Err(e);
                },
            };
            proof {
                if consistent(b) {
                    let a = choose|a: Set<(usize, usize)>|
                        state_sat(a, rr@, g, Seq::empty(), Set::empty(), Set::empty());
                    assert(a.finite() && regions_sat(a, rr@));
                    assert(links_sat(a, links@));
                    assert(state_sat(a, rr@, g, links@, Set::empty(), Set::empty()));
                }
            }
            let ghost lq = links@;
            match algo::run(
                links,
                &mut rr,
                &mut g,
                &mut self.found_empty_locs,
                &mut self.found_mine_locs,
            ) {
                Ok(()) => {},
                Err(e) => {
                    proof {
                        if consistent(b) {
                            assert(false);
                        }
                    }
                    return Err(e);
                },
            }
            proof {
                if consistent(b) {
                    let aw = true_mines(b);
                    assert(state_sat(aw, rr_p, g_p, Seq::empty(), Set::empty(), Set::empty()));
                    assert(aw.finite() && regions_sat(aw, rr_p));
                    assert(links_sat(aw, lq));
                    assert(state_sat(aw, rr_p, g_p, lq, Set::empty(), Set::empty()));
                    assert(regions_sat(aw, rr@) && region_sat(aw, g.req() as int, g.locs()));
                    assert(state_sat(aw, rr@, g, Seq::empty(), Set::empty(), Set::empty()));
                    assert forall|p: (usize, usize)|
                        loc_set(self.found_empty_locs).contains(p) implies !aw.contains(p) by {
                        if !fe_p.contains(p) {
                            assert(loc_set(self.found_empty_locs).difference(fe_p).contains(p));
                        }
                    }
                    assert forall|p: (usize, usize)|
                        loc_set(self.found_mine_locs).contains(p) implies aw.contains(p) by {
                        if !fm_p.contains(p) {
                            assert(loc_set(self.found_mine_locs).difference(fm_p).contains(p));
                        }
                    }
                }
            }
            gi += 1;
        }
        let ghost rr_p2 = rr@;
        let ghost g_p2 = g;
        let ghost fe_p2 = loc_set(self.found_empty_locs);
        let ghost fm_p2 = loc_set(self.found_mine_locs);
        let glinks = match build_global_links(&rr, &g) {
            Ok(q) => q,
            Err(e) => {
                proof {
                    if consistent(b) {
                        let a = choose|a: Set<(usize, usize)>|
                            state_sat(a, rr@, g, Seq::empty(), Set::empty(), Set::empty());
                        assert(a.finite() && regions_sat(a, rr@) && region_sat(
                            a,
                            g.req() as int,
                            g.locs(),
                        ));
                        assert(false);
                    }
                }
                return Err(e);
            },
        };
        proof {
            if consistent(b) {
                let a = choose|a: Set<(usize, usize)>|
                    state_sat(a, rr@, g, Seq::empty(), Set::empty(), Set::empty());
                assert(a.finite() && regions_sat(a, rr@) && region_sat(
                    a,
                    g.req() as int,
                    g.locs(),
                ));
                assert(links_sat(a, glinks@));
                assert(state_sat(a, rr@, g, glinks@, Set::empty(), Set::empty()));
            }
        }
        let ghost glq = glinks@;
        match algo::run(
            glinks,
            &mut rr,
            &mut g,
            &mut self.found_empty_locs,
            &mut self.found_mine_locs,
        ) {
            Ok(()) => {},
            Err(e) => {
                proof {
                    if consistent(b) {
                        assert(false);
                    }
                }
                return Err(e);
            },
        }
        proof {
            if consistent(b) {
                let aw = true_mines(b);
                assert(state_sat(aw, rr_p2, g_p2, Seq::empty(), Set::empty(), Set::empty()));
                assert(aw.finite() && regions_sat(aw, rr_p2) && region_sat(
                    aw,
                    g_p2.req() as int,
                    g_p2.locs(),
                ));
                assert(links_sat(aw, glq));
                assert(state_sat(aw, rr_p2, g_p2, glq, Set::empty(), Set::empty()));
                assert(regions_sat(aw, rr@) && region_sat(aw, g.req() as int, g.locs()));
                assert forall|p: (usize, usize)|
                    loc_set(self.found_empty_locs).contains(p) implies !aw.contains(p) by {
                    if !fe_p2.contains(p) {
                        assert(loc_set(self.found_empty_locs).difference(fe_p2).contains(p));
                    }
                }
                assert forall|p: (usize, usize)|
                    loc_set(self.found_mine_locs).contains(p) implies aw.contains(p) by {
                    if !fm_p2.contains(p) {
                        assert(loc_set(self.found_mine_locs).difference(fm_p2).contains(p));
                    }
                }
                assert(loc_set(self.found_mine_locs).subset_of(aw));
                assert(loc_set(self.found_empty_locs).disjoint(aw));
            }
        }
        self.valid_regions = rr;
        self.board_region = g;
        let ne = loc_set_len(&self.found_empty_locs);
        let nm = loc_set_len(&self.found_mine_locs);
        if ne == 0 && nm == 0 {
            proof {
                loc_set(self.found_empty_locs).lemma_len0_is_empty();
                loc_set(self.found_mine_locs).lemma_len0_is_empty();
            }
            Ok(None)
        } else {
            let kc = KnownCells {
                empty: loc_set_clone(&self.found_empty_locs),
                mines: loc_set_clone(&self.found_mine_locs),
            };
            Ok(Some(kc))
        }
    }
}

} // verus!
