//! The propagation engine.  A queue of linked sub-regions is worked to a
//! fixpoint: whenever only one feasible split is left on a link, its forced
//! zones are resolved, and the conclusions are pushed into the board region,
//! every residual region, every other live link, and the accumulators.

use vstd::prelude::*;
use std::collections::VecDeque;
use indexmap::IndexSet;
use crate::iset::{loc_set, loc_set_insert, loc_set_len, loc_set_new, loc_set_to_vec, tri_set_len,
    tri_set_to_vec};
use crate::solver::region::{lemma_link_sat_empty, lemma_link_sat_mines, lemma_sat_after_removal,
    link_sat, links_sat, region_sat, regions_sat, LinkedSubRegion, Region};
use crate::solver::SolveError;

verus! {

broadcast use vstd::seq_lib::lemma_seq_contains_after_push;

/// Residual regions are well formed and stay inside the board region's
/// hidden cells.
pub open spec fn regions_ok(regions: Seq<Region>, g: Region) -> bool {
    forall|i: int|
        0 <= i < regions.len() ==> (#[trigger] regions[i]).wf() && regions[i].locs().subset_of(
            g.locs(),
        )
}

/// The accumulated conclusions are disjoint from each other and from the
/// cells still unresolved.
pub open spec fn found_ok(g: Region, fe: Set<(usize, usize)>, fm: Set<(usize, usize)>) -> bool {
    &&& g.wf()
    &&& fe.finite()
    &&& fm.finite()
    &&& fe.disjoint(fm)
    &&& g.locs().disjoint(fe)
    &&& g.locs().disjoint(fm)
}

/// A live link is well formed and stays inside the board region's hidden
/// cells.
pub open spec fn link_ok(l: LinkedSubRegion, g: Region) -> bool {
    l.wf() && l.cells().subset_of(g.locs())
}

/// Every queued link is live.
pub open spec fn links_ok(links: Seq<LinkedSubRegion>, g: Region) -> bool {
    forall|i: int| 0 <= i < links.len() ==> link_ok(#[trigger] links[i], g)
}

/// The conclusions a single-split link forces have landed: a zone whose
/// only feasible count is zero lies among the safe cells, and one counted
/// at its full size lies among the mines.
pub open spec fn forced_into(
    l: LinkedSubRegion,
    fe: Set<(usize, usize)>,
    fm: Set<(usize, usize)>,
) -> bool {
    forall|t: (usize, usize, usize)|
        l.feasible().len() == 1 && #[trigger] l.feasible().contains(t) ==> {
            &&& (t.0 == 0 ==> l.zone0().subset_of(fe))
            &&& (t.0 == l.zone0().len() ==> l.zone0().subset_of(fm))
            &&& (t.1 == 0 ==> l.zone_s().subset_of(fe))
            &&& (t.1 == l.zone_s().len() ==> l.zone_s().subset_of(fm))
            &&& (t.2 == 0 ==> l.zone1().subset_of(fe))
            &&& (t.2 == l.zone1().len() ==> l.zone1().subset_of(fm))
        }
}

/// Some mine assignment satisfies every live constraint, misses every cell
/// reported safe, and covers every cell reported as a mine.  While one
/// exists, no conclusion can be contradictory, so no step may fail.
pub open spec fn state_sat(
    a: Set<(usize, usize)>,
    regions: Seq<Region>,
    g: Region,
    links: Seq<LinkedSubRegion>,
    e: Set<(usize, usize)>,
    m: Set<(usize, usize)>,
) -> bool {
    &&& a.finite()
    &&& regions_sat(a, regions)
    &&& region_sat(a, g.req() as int, g.locs())
    &&& links_sat(a, links)
    &&& e.disjoint(a)
    &&& m.subset_of(a)
}

/// Two disjoint finite sets contribute their lengths to their union.
pub proof fn lemma_disjoint_union_len(a: Set<(usize, usize)>, b: Set<(usize, usize)>)
    requires
        a.finite(),
        b.finite(),
        a.disjoint(b),
    ensures
        a.union(b).finite(),
        a.union(b).len() == a.len() + b.len(),
    decreases a.len(),
{
    if a.len() == 0 {
        a.lemma_len0_is_empty();
        assert(a.union(b) =~= b);
    } else {
        let x = a.choose();
        assert(a.contains(x));
        assert(a.remove(x).disjoint(b));
        lemma_disjoint_union_len(a.remove(x), b);
        assert(a.union(b) =~= a.remove(x).union(b).insert(x));
        assert(!a.remove(x).union(b).contains(x));
    }
}

/// Pour one set of locations into another.
fn add_all(dst: &mut IndexSet<(usize, usize)>, src: &IndexSet<(usize, usize)>)
    requires
        loc_set(*old(dst)).finite(),
    ensures
        loc_set(*final(dst)) == loc_set(*old(dst)).union(loc_set(*src)),
        loc_set(*final(dst)).finite(),
{
    let sv = loc_set_to_vec(src);
    let mut i: usize = 0;
    while i < sv.len()
        invariant
            i <= sv@.len(),
            sv@.to_set() == loc_set(*src),
            loc_set(*dst) == loc_set(*old(dst)).union(sv@.take(i as int).to_set()),
            loc_set(*dst).finite(),
        decreases sv@.len() - i,
    {
        loc_set_insert(dst, sv[i]);
        proof {
            assert(sv@.take(i + 1) =~= sv@.take(i as int).push(sv@[i as int]));
            assert(loc_set(*dst) =~= loc_set(*old(dst)).union(sv@.take(i + 1).to_set()));
        }
        i += 1;
    }
    proof {
        assert(sv@.take(sv@.len() as int) =~= sv@);
        assert(loc_set(*dst) =~= loc_set(*old(dst)).union(loc_set(*src)));
    }
}

/// Push newly resolved safe and mine cells into every live structure: the
/// board region, the residual regions, the queued links, and the
/// accumulated conclusions.  Fails when some constraint is left
/// unsatisfiable.
pub fn apply_known(
    regions: &mut Vec<Region>,
    g: &mut Region,
    links: &mut VecDeque<LinkedSubRegion>,
    fe: &mut IndexSet<(usize, usize)>,
    fm: &mut IndexSet<(usize, usize)>,
    new_e: &IndexSet<(usize, usize)>,
    new_m: &IndexSet<(usize, usize)>,
) -> (r: Result<(), SolveError>)
    requires
        regions_ok(old(regions)@, *old(g)),
        found_ok(*old(g), loc_set(*old(fe)), loc_set(*old(fm))),
        links_ok(old(links)@, *old(g)),
        loc_set(*new_e).subset_of(old(g).locs()),
        loc_set(*new_m).subset_of(old(g).locs()),
        loc_set(*new_e).disjoint(loc_set(*new_m)),
        loc_set(*new_e).finite(),
        loc_set(*new_m).finite(),
    ensures
        r is Ok ==> {
            &&& regions_ok(final(regions)@, *final(g))
            &&& found_ok(*final(g), loc_set(*final(fe)), loc_set(*final(fm)))
            &&& links_ok(final(links)@, *final(g))
            &&& final(g).locs() == old(g).locs().difference(
                loc_set(*new_e).union(loc_set(*new_m)),
            )
            &&& final(g).req() + loc_set(*final(fm)).len() == old(g).req() + loc_set(
                *old(fm),
            ).len()
            &&& loc_set(*final(fe)) == loc_set(*old(fe)).union(loc_set(*new_e))
            &&& loc_set(*final(fm)) == loc_set(*old(fm)).union(loc_set(*new_m))
            &&& final(regions)@.len() == old(regions)@.len()
            &&& forall|t: int|
                0 <= t < final(regions)@.len() ==> (#[trigger] final(regions)@[t]).req()
                    == old(regions)@[t].req() - old(regions)@[t].locs().intersect(
                    loc_set(*new_m),
                ).len() && final(regions)@[t].locs() == old(regions)@[t].locs().difference(
                    loc_set(*new_e).union(loc_set(*new_m)),
                )
            &&& final(links)@.len() == old(links)@.len()
            &&& forall|i: int|
                0 <= i < final(links)@.len() ==> ({
                    let rem = loc_set(*new_e).union(loc_set(*new_m));
                    &&& (#[trigger] final(links)@[i]).zone0() == old(links)@[i].zone0().difference(rem)
                    &&& final(links)@[i].zone_s() == old(links)@[i].zone_s().difference(rem)
                    &&& final(links)@[i].zone1() == old(links)@[i].zone1().difference(rem)
                })
            &&& forall|a: Set<(usize, usize)>|
                state_sat(a, old(regions)@, *old(g), old(links)@, loc_set(*new_e), loc_set(*new_m))
                    ==> state_sat(a, final(regions)@, *final(g), final(links)@, Set::empty(), Set::empty())
        },
        r is Err ==> r == Err::<(), SolveError>(SolveError::EmptyFeasibilitySet),
        (exists|a: Set<(usize, usize)>|
            state_sat(
                a,
                old(regions)@,
                *old(g),
                old(links)@,
                loc_set(*new_e),
                loc_set(*new_m),
            )) ==> (r is Ok && (exists|a: Set<(usize, usize)>|
            state_sat(
                a,
                final(regions)@,
                *final(g),
                final(links)@,
                Set::empty(),
                Set::empty(),
            ))),
{
    let ghost e_set = loc_set(*new_e);
    let ghost m_set = loc_set(*new_m);
    let ghost hyp = exists|a: Set<(usize, usize)>|
        state_sat(a, old(regions)@, *old(g), old(links)@, loc_set(*new_e), loc_set(*new_m));
    let ghost aw = choose|a: Set<(usize, usize)>|
        state_sat(a, old(regions)@, *old(g), old(links)@, loc_set(*new_e), loc_set(*new_m));
    match g.remove_empty_locs(new_e) {
        Ok(()) => {},
        Err(e) => {
            proof {
                if hyp {
                    lemma_sat_after_removal(aw, old(g).req() as int, old(g).locs(), e_set, m_set);
                    assert(false);
                }
            }
            return Err(e);
        },
    }
    match g.remove_mine_locs(new_m) {
        Ok(()) => {},
        Err(e) => {
            proof {
                if hyp {
                    lemma_sat_after_removal(aw, old(g).req() as int, old(g).locs(), e_set, m_set);
                    assert(false);
                }
            }
            return Err(e);
        },
    }
    proof {
        if hyp {
            lemma_sat_after_removal(aw, old(g).req() as int, old(g).locs(), e_set, m_set);
            assert(old(g).locs().intersect(m_set) =~= m_set);
            assert(region_sat(aw, g.req() as int, g.locs()));
        }
    }
    proof {
        assert(old(g).locs().difference(e_set).intersect(m_set) =~= m_set);
        assert(g.locs() =~= old(g).locs().difference(e_set.union(m_set)));
    }
    let mut newregs: Vec<Region> = Vec::new();
    let mut ri: usize = 0;
    while ri < regions.len()
        invariant
            regions@ == old(regions)@,
            regions_ok(old(regions)@, *old(g)),
            ri <= regions@.len(),
            loc_set(*new_e) == e_set,
            loc_set(*new_m) == m_set,
            e_set.disjoint(m_set),
            hyp == (exists|a: Set<(usize, usize)>|
                state_sat(
                    a,
                    old(regions)@,
                    *old(g),
                    old(links)@,
                    loc_set(*new_e),
                    loc_set(*new_m),
                )),
            hyp ==> state_sat(aw, old(regions)@, *old(g), old(links)@, e_set, m_set),
            hyp ==> regions_sat(aw, newregs@),
            forall|a: Set<(usize, usize)>|
                state_sat(a, old(regions)@, *old(g), old(links)@, e_set, m_set) ==> regions_sat(
                    a,
                    newregs@,
                ),
            newregs@.len() == ri,
            forall|t: int|
                0 <= t < ri ==> (#[trigger] newregs@[t]).wf() && newregs@[t].locs()
                    == old(regions)@[t].locs().difference(e_set).difference(m_set)
                    && newregs@[t].req() == old(regions)@[t].req() - old(regions)@[t].locs()
                    .intersect(m_set).len(),
        decreases regions@.len() - ri,
    {
        let mut reg = regions[ri].duplicate();
        proof {
            assert(old(regions)@[ri as int].wf());
        }
        proof {
            if hyp {
                assert(region_sat(
                    aw,
                    old(regions)@[ri as int].req() as int,
                    old(regions)@[ri as int].locs(),
                ));
                lemma_sat_after_removal(
                    aw,
                    old(regions)@[ri as int].req() as int,
                    old(regions)@[ri as int].locs(),
                    e_set,
                    m_set,
                );
            }
        }
        match reg.remove_empty_locs(new_e) {
            Ok(()) => {},
            Err(e) => {
                proof {
                    if hyp {
                        assert(false);
                    }
                }
                return Err(e);
            },
        }
        let ghost mid_locs = reg.locs();
        match reg.remove_mine_locs(new_m) {
            Ok(()) => {},
            Err(e) => {
                proof {
                    if hyp {
                        assert(mid_locs.intersect(m_set) =~= old(
                            regions,
                        )@[ri as int].locs().intersect(m_set));
                        assert(false);
                    }
                }
                return Err(e);
            },
        }
        proof {
            assert(mid_locs.intersect(m_set) =~= old(regions)@[ri as int].locs().intersect(
                m_set,
            ));
        }
        let ghost nr0 = newregs@;
        newregs.push(reg);
        proof {
            if hyp {
                assert forall|t: int| 0 <= t < newregs@.len() implies region_sat(
                    aw,
                    (#[trigger] newregs@[t]).req() as int,
                    newregs@[t].locs(),
                ) by {
                    if t < nr0.len() {
                        assert(newregs@[t] == nr0[t]);
                    } else {
                        assert(newregs@[t] == reg);
                    }
                }
            }
            assert forall|a: Set<(usize, usize)>|
                state_sat(a, old(regions)@, *old(g), old(links)@, e_set, m_set) implies regions_sat(
                a,
                newregs@,
            ) by {
                assert(region_sat(
                    a,
                    old(regions)@[ri as int].req() as int,
                    old(regions)@[ri as int].locs(),
                ));
                lemma_sat_after_removal(
                    a,
                    old(regions)@[ri as int].req() as int,
                    old(regions)@[ri as int].locs(),
                    e_set,
                    m_set,
                );
                assert forall|t: int| 0 <= t < newregs@.len() implies region_sat(
                    a,
                    (#[trigger] newregs@[t]).req() as int,
                    newregs@[t].locs(),
                ) by {
                    if t < nr0.len() {
                        assert(newregs@[t] == nr0[t]);
                        assert(regions_sat(a, nr0));
                    } else {
                        assert(newregs@[t] == reg);
                    }
                }
            }
        }
        ri += 1;
    }
    *regions = newregs;
    proof {
        assert forall|i: int|
            0 <= i < regions@.len() implies (#[trigger] regions@[i]).wf() && regions@[i].locs()
            .subset_of(g.locs()) && regions@[i].locs() == old(regions)@[i].locs().difference(
            e_set.union(m_set),
        ) by {
            assert(old(regions)@[i].locs().subset_of(old(g).locs()));
            assert(regions@[i].locs() =~= old(regions)@[i].locs().difference(
                e_set.union(m_set),
            ));
        }
    }
    let ghost llen = links@.len();
    let mut out: VecDeque<LinkedSubRegion> = VecDeque::new();
    while links.len() > 0
        invariant
            g.locs() == old(g).locs().difference(e_set.union(m_set)),
            g.req() == old(g).req() - m_set.len(),
            old(g).locs().intersect(m_set) == m_set,
            loc_set(*new_e) == e_set,
            loc_set(*new_m) == m_set,
            g.wf(),
            links_ok(links@, *old(g)),
            links_ok(out@, *g),
            out@.len() + links@.len() == llen,
            llen == old(links)@.len(),
            forall|k: int|
                0 <= k < links@.len() ==> #[trigger] links@[k] == old(links)@[k + out@.len()],
            forall|k: int|
                0 <= k < out@.len() ==> (#[trigger] out@[k]).zone0() == old(links)@[k].zone0().difference(e_set.union(m_set))
                    && out@[k].zone_s() == old(links)@[k].zone_s().difference(e_set.union(m_set))
                    && out@[k].zone1() == old(links)@[k].zone1().difference(e_set.union(m_set)),
            hyp == (exists|a: Set<(usize, usize)>|
                state_sat(
                    a,
                    old(regions)@,
                    *old(g),
                    old(links)@,
                    loc_set(*new_e),
                    loc_set(*new_m),
                )),
            hyp ==> state_sat(aw, old(regions)@, *old(g), old(links)@, e_set, m_set),
            hyp ==> regions_sat(aw, regions@),
            hyp ==> region_sat(aw, g.req() as int, g.locs()),
            hyp ==> links_sat(aw, links@),
            hyp ==> links_sat(aw, out@),
            forall|a: Set<(usize, usize)>|
                state_sat(a, old(regions)@, *old(g), old(links)@, e_set, m_set) ==> regions_sat(
                    a,
                    regions@,
                ),
            forall|a: Set<(usize, usize)>|
                state_sat(a, old(regions)@, *old(g), old(links)@, e_set, m_set) ==> links_sat(
                    a,
                    links@,
                ) && links_sat(a, out@),
        decreases links@.len(),
    {
        proof {
            assert(link_ok(links@[0], *old(g)));
        }
        let ghost pre_pop = links@;
        let mut l = links.pop_front().unwrap();
        let ghost l0 = l;
        proof {
            if hyp {
                assert(link_sat(aw, l0));
                assert forall|i: int| 0 <= i < links@.len() implies link_sat(
                    aw,
                    #[trigger] links@[i],
                ) by {
                    assert(links@[i] == pre_pop[i + 1]);
                }
            }
        }
        match l.remove_mines(new_m) {
            Ok(()) => {},
            Err(e) => {
                proof {
                    if hyp {
                        lemma_link_sat_mines(aw, l0, l, m_set);
                        assert(false);
                    }
                }
                return Err(e);
            },
        }
        let ghost lm = l;
        proof {
            if hyp {
                lemma_link_sat_mines(aw, l0, lm, m_set);
            }
        }
        match l.remove_empty(new_e) {
            Ok(()) => {},
            Err(e) => {
                proof {
                    if hyp {
                        lemma_link_sat_empty(aw, lm, l, e_set);
                        assert(false);
                    }
                }
                return Err(e);
            },
        }
        proof {
            assert(l.cells().subset_of(g.locs())) by {
                assert(l.zone0() =~= l0.zone0().difference(m_set).difference(e_set));
                assert(l.zone_s() =~= l0.zone_s().difference(m_set).difference(e_set));
                assert(l.zone1() =~= l0.zone1().difference(m_set).difference(e_set));
            }
        }
        let ghost out0 = out@;
        out.push_back(l);
        proof {
            assert(l0 == old(links)@[out0.len() as int]);
            assert(l.zone0() =~= l0.zone0().difference(e_set.union(m_set)));
            assert(l.zone_s() =~= l0.zone_s().difference(e_set.union(m_set)));
            assert(l.zone1() =~= l0.zone1().difference(e_set.union(m_set)));
            assert forall|k: int| 0 <= k < out@.len() implies (#[trigger] out@[k]).zone0() == old(links)@[k].zone0().difference(e_set.union(m_set))
                && out@[k].zone_s() == old(links)@[k].zone_s().difference(e_set.union(m_set))
                && out@[k].zone1() == old(links)@[k].zone1().difference(e_set.union(m_set)) by {
                if k < out0.len() {
                    assert(out@[k] == out0[k]);
                } else {
                    assert(out@[k] == l);
                }
            }
            assert forall|a: Set<(usize, usize)>|
                state_sat(a, old(regions)@, *old(g), old(links)@, e_set, m_set) implies links_sat(
                a,
                links@,
            ) && links_sat(a, out@) by {
                assert(links_sat(a, pre_pop));
                assert forall|i: int| 0 <= i < links@.len() implies link_sat(
                    a,
                    #[trigger] links@[i],
                ) by {
                    assert(links@[i] == pre_pop[i + 1]);
                }
                assert(link_sat(a, l0)) by {
                    assert(pre_pop[0] == l0);
                }
                lemma_link_sat_mines(a, l0, lm, m_set);
                lemma_link_sat_empty(a, lm, l, e_set);
                assert forall|i: int| 0 <= i < out@.len() implies link_sat(
                    a,
                    #[trigger] out@[i],
                ) by {
                    if i < out0.len() {
                        assert(out@[i] == out0[i]);
                        assert(links_sat(a, out0));
                    } else {
                        assert(out@[i] == l);
                    }
                }
            }
            if hyp {
                lemma_link_sat_empty(aw, lm, l, e_set);
                assert forall|i: int| 0 <= i < out@.len() implies link_sat(
                    aw,
                    #[trigger] out@[i],
                ) by {
                    if i < out0.len() {
                        assert(out@[i] == out0[i]);
                    } else {
                        assert(out@[i] == l);
                    }
                }
            }
        }
    }
    *links = out;
    let ghost fe0 = loc_set(*fe);
    let ghost fm0 = loc_set(*fm);
    add_all(fe, new_e);
    add_all(fm, new_m);
    proof {
        assert(fm0.disjoint(m_set));
        lemma_disjoint_union_len(fm0, m_set);
        assert(loc_set(*fe).disjoint(loc_set(*fm))) by {
            assert(fe0.disjoint(fm0));
            assert(e_set.disjoint(m_set));
            assert(e_set.disjoint(fm0));
            assert(fe0.disjoint(m_set));
            assert(loc_set(*fe) =~= fe0.union(e_set));
            assert(loc_set(*fm) =~= fm0.union(m_set));
            assert forall|p: (usize, usize)|
                loc_set(*fe).contains(p) implies !loc_set(*fm).contains(p) by {}
        }
        assert(g.locs().disjoint(loc_set(*fe)));
        assert(g.locs().disjoint(loc_set(*fm)));
        if hyp {
            assert(Set::<(usize, usize)>::empty().disjoint(aw));
            assert(Set::<(usize, usize)>::empty().subset_of(aw));
            assert(state_sat(
                aw,
                regions@,
                *g,
                links@,
                Set::<(usize, usize)>::empty(),
                Set::<(usize, usize)>::empty(),
            ));
        }
        assert forall|a: Set<(usize, usize)>|
            state_sat(
                a,
                old(regions)@,
                *old(g),
                old(links)@,
                loc_set(*new_e),
                loc_set(*new_m),
            ) implies state_sat(
            a,
            regions@,
            *g,
            links@,
            Set::<(usize, usize)>::empty(),
            Set::<(usize, usize)>::empty(),
        ) by {
            assert(state_sat(a, old(regions)@, *old(g), old(links)@, e_set, m_set));
            lemma_sat_after_removal(a, old(g).req() as int, old(g).locs(), e_set, m_set);
            assert(old(g).locs().difference(e_set).difference(m_set) =~= g.locs());
            assert(region_sat(a, g.req() as int, g.locs()));
            assert(Set::<(usize, usize)>::empty().disjoint(a));
            assert(Set::<(usize, usize)>::empty().subset_of(a));
        }
    }
    Ok(())
}

/// Work the queue of links to a fixpoint: a link with a single feasible
/// split forces each of its zones to be all safe or all mines whenever the
/// split's count says so; the conclusions are applied everywhere, and the
/// loop stops after a full pass without change.
#[verifier::spinoff_prover]
#[verifier::rlimit(100)]
pub fn run(
    queue: VecDeque<LinkedSubRegion>,
    regions: &mut Vec<Region>,
    g: &mut Region,
    fe: &mut IndexSet<(usize, usize)>,
    fm: &mut IndexSet<(usize, usize)>,
) -> (r: Result<(), SolveError>)
    requires
        regions_ok(old(regions)@, *old(g)),
        found_ok(*old(g), loc_set(*old(fe)), loc_set(*old(fm))),
        links_ok(queue@, *old(g)),
    ensures
        r is Ok ==> {
            &&& regions_ok(final(regions)@, *final(g))
            &&& found_ok(*final(g), loc_set(*final(fe)), loc_set(*final(fm)))
            &&& final(g).req() + loc_set(*final(fm)).len() == old(g).req() + loc_set(
                *old(fm),
            ).len()
            &&& loc_set(*old(fe)).subset_of(loc_set(*final(fe)))
            &&& loc_set(*old(fm)).subset_of(loc_set(*final(fm)))
            &&& loc_set(*final(fe)).subset_of(loc_set(*old(fe)).union(old(g).locs()))
            &&& loc_set(*final(fm)).subset_of(loc_set(*old(fm)).union(old(g).locs()))
            &&& final(g).locs().subset_of(old(g).locs())
            &&& final(regions)@.len() == old(regions)@.len()
        },
        r is Ok && queue@.len() > 0 ==> forced_into(
            queue@[0],
            loc_set(*final(fe)),
            loc_set(*final(fm)),
        ),
        r is Ok ==> forall|a: Set<(usize, usize)>|
            #[trigger] state_sat(a, old(regions)@, *old(g), queue@, Set::empty(), Set::empty())
                ==> ({
                &&& regions_sat(a, final(regions)@)
                &&& region_sat(a, final(g).req() as int, final(g).locs())
                &&& loc_set(*final(fe)).difference(loc_set(*old(fe))).disjoint(a)
                &&& loc_set(*final(fm)).difference(loc_set(*old(fm))).subset_of(a)
            }),
        r is Err ==> r == Err::<(), SolveError>(SolveError::EmptyFeasibilitySet),
        (exists|a: Set<(usize, usize)>|
            state_sat(
                a,
                old(regions)@,
                *old(g),
                queue@,
                Set::empty(),
                Set::empty(),
            )) ==> (r is Ok && (exists|a: Set<(usize, usize)>|
            state_sat(
                a,
                final(regions)@,
                *final(g),
                Seq::empty(),
                Set::empty(),
                Set::empty(),
            ))),
{
    let ghost hyp = exists|a: Set<(usize, usize)>|
        state_sat(a, old(regions)@, *old(g), queue@, Set::empty(), Set::empty());
    let mut links = queue;
    let mut since_last_change: usize = 0;
    let mut done = false;
    let ghost mut first_done: bool = false;
    proof {
        if hyp {
            let a0 = choose|a: Set<(usize, usize)>|
                state_sat(a, old(regions)@, *old(g), links@, Set::empty(), Set::empty());
            assert(state_sat(a0, regions@, *g, links@, Set::empty(), Set::empty()));
        }
    }
    #[verifier::loop_isolation(false)]
    while links.len() > 0 && !done
        invariant
            regions_ok(regions@, *g),
            found_ok(*g, loc_set(*fe), loc_set(*fm)),
            links_ok(links@, *g),
            g.req() + loc_set(*fm).len() == old(g).req() + loc_set(*old(fm)).len(),
            loc_set(*old(fe)).subset_of(loc_set(*fe)),
            loc_set(*old(fm)).subset_of(loc_set(*fm)),
            loc_set(*fe).subset_of(loc_set(*old(fe)).union(old(g).locs())),
            loc_set(*fm).subset_of(loc_set(*old(fm)).union(old(g).locs())),
            g.locs().subset_of(old(g).locs()),
            regions@.len() == old(regions)@.len(),
            done || since_last_change <= links@.len(),
            !first_done ==> links@ == queue@ && !done,
            first_done && queue@.len() > 0 ==> forced_into(queue@[0], loc_set(*fe), loc_set(*fm)),
            forall|a: Set<(usize, usize)>|
                #[trigger] state_sat(a, old(regions)@, *old(g), queue@, Set::empty(), Set::empty())
                    ==> state_sat(a, regions@, *g, links@, Set::empty(), Set::empty()) && loc_set(
                    *fe,
                ).difference(loc_set(*old(fe))).disjoint(a) && loc_set(*fm).difference(
                    loc_set(*old(fm)),
                ).subset_of(a),
            hyp ==> (exists|a: Set<(usize, usize)>|
                state_sat(a, regions@, *g, links@, Set::empty(), Set::empty())),
        decreases links@.len(), (if done {
            0int
        } else {
            1int
        }), links@.len() - since_last_change,
    {
        proof {
            assert(link_ok(links@[0], *g));
        }
        let ghost regs_pre = regions@;
        let ghost g_pre = *g;
        let ghost pre_pop = links@;
        let link = links.pop_front().unwrap();
        let ghost aw = choose|a: Set<(usize, usize)>|
            state_sat(a, regions@, *g, pre_pop, Set::empty(), Set::empty());
        proof {
            if hyp {
                assert(state_sat(aw, regions@, *g, pre_pop, Set::empty(), Set::empty()));
                assert(link_sat(aw, link));
                assert forall|i: int| 0 <= i < links@.len() implies link_sat(
                    aw,
                    #[trigger] links@[i],
                ) by {
                    assert(links@[i] == pre_pop[i + 1]);
                }
            }
        }
        if tri_set_len(&link.mine_sets) != 1 {
            let ghost lq0 = links@;
            links.push_back(link);
            proof {
                first_done = true;
                if hyp {
                    assert forall|i: int| 0 <= i < links@.len() implies link_sat(
                        aw,
                        #[trigger] links@[i],
                    ) by {
                        if i < lq0.len() {
                            assert(links@[i] == lq0[i]);
                        } else {
                            assert(links@[i] == link);
                        }
                    }
                    assert(state_sat(aw, regions@, *g, links@, Set::empty(), Set::empty()));
                }
                assert forall|a: Set<(usize, usize)>|
                    #[trigger] state_sat(
                        a,
                        old(regions)@,
                        *old(g),
                        queue@,
                        Set::empty(),
                        Set::empty(),
                    ) implies state_sat(a, regions@, *g, links@, Set::empty(), Set::empty())
                    && loc_set(*fe).difference(loc_set(*old(fe))).disjoint(a) && loc_set(
                    *fm,
                ).difference(loc_set(*old(fm))).subset_of(a) by {
                    assert(state_sat(a, regs_pre, g_pre, pre_pop, Set::empty(), Set::empty()));
                    assert(link_sat(a, link)) by {
                        assert(pre_pop[0] == link);
                    }
                    assert forall|i: int| 0 <= i < links@.len() implies link_sat(
                        a,
                        #[trigger] links@[i],
                    ) by {
                        if i < lq0.len() {
                            assert(links@[i] == lq0[i]);
                            assert(lq0[i] == pre_pop[i + 1]);
                        } else {
                            assert(links@[i] == link);
                        }
                    }
                }
            }
        } else {
            let tv = tri_set_to_vec(&link.mine_sets);
            let t = tv[0];
            let mut new_e = loc_set_new();
            let mut new_m = loc_set_new();
            let mut changed = false;
            if t.0 == 0 {
                add_all(&mut new_e, &link.r0);
                changed = true;
            } else if t.0 == loc_set_len(&link.r0) {
                add_all(&mut new_m, &link.r0);
                changed = true;
            }
            if t.2 == 0 {
                add_all(&mut new_e, &link.r1);
                changed = true;
            } else if t.2 == loc_set_len(&link.r1) {
                add_all(&mut new_m, &link.r1);
                changed = true;
            }
            if t.1 == 0 {
                add_all(&mut new_e, &link.rs);
                changed = true;
            } else if t.1 == loc_set_len(&link.rs) {
                add_all(&mut new_m, &link.rs);
                changed = true;
            }
            let ghost fe_pre = loc_set(*fe);
            let ghost fm_pre = loc_set(*fm);
            proof {
                assert(loc_set(new_e).subset_of(g.locs()));
                assert(loc_set(new_m).subset_of(g.locs()));
                assert(loc_set(new_e).disjoint(loc_set(new_m)));
                if t.0 == 0 {
                    assert(link.zone0().subset_of(loc_set(new_e)));
                }
                if t.0 == link.zone0().len() && t.0 != 0 {
                    assert(link.zone0().subset_of(loc_set(new_m)));
                }
                if t.2 == 0 {
                    assert(link.zone1().subset_of(loc_set(new_e)));
                }
                if t.2 == link.zone1().len() && t.2 != 0 {
                    assert(link.zone1().subset_of(loc_set(new_m)));
                }
                if t.1 == 0 {
                    assert(link.zone_s().subset_of(loc_set(new_e)));
                }
                if t.1 == link.zone_s().len() && t.1 != 0 {
                    assert(link.zone_s().subset_of(loc_set(new_m)));
                }
                if hyp {
                    let ta = choose|t0: (usize, usize, usize)|
                        #[trigger] link.feasible().contains(t0) && t0.0 == link.zone0().intersect(
                            aw,
                        ).len() && t0.1 == link.zone_s().intersect(aw).len() && t0.2
                            == link.zone1().intersect(aw).len();
                    assert(link.feasible().contains(tv@[0]));
                    crate::solver::region::lemma_len1_unique(link.feasible(), tv@[0], ta);
                    lemma_forced_zone(aw, link.zone0(), t.0 as int);
                    lemma_forced_zone(aw, link.zone_s(), t.1 as int);
                    lemma_forced_zone(aw, link.zone1(), t.2 as int);
                    assert(state_sat(aw, regions@, *g, links@, loc_set(new_e), loc_set(new_m)));
                }
            }
            let ghost lq_mid = links@;
            match apply_known(regions, g, &mut links, fe, fm, &new_e, &new_m) {
                Ok(()) => {},
                Err(e) => {
                    proof {
                        if hyp {
                            assert(false);
                        }
                    }
                    return Err(e);
                },
            }
            proof {
                assert(fe_pre.subset_of(loc_set(*fe)));
                assert(fm_pre.subset_of(loc_set(*fm)));
                assert(loc_set(new_e).subset_of(loc_set(*fe)));
                assert(loc_set(new_m).subset_of(loc_set(*fm)));
                if !first_done {
                    assert(link == queue@[0]);
                    assert forall|t2: (usize, usize, usize)|
                        link.feasible().len() == 1 && #[trigger] link.feasible().contains(
                            t2,
                        ) implies {
                        &&& (t2.0 == 0 ==> link.zone0().subset_of(loc_set(*fe)))
                        &&& (t2.0 == link.zone0().len() ==> link.zone0().subset_of(loc_set(*fm)))
                        &&& (t2.1 == 0 ==> link.zone_s().subset_of(loc_set(*fe)))
                        &&& (t2.1 == link.zone_s().len() ==> link.zone_s().subset_of(loc_set(*fm)))
                        &&& (t2.2 == 0 ==> link.zone1().subset_of(loc_set(*fe)))
                        &&& (t2.2 == link.zone1().len() ==> link.zone1().subset_of(loc_set(*fm)))
                    } by {
                        crate::solver::region::lemma_len1_unique(link.feasible(), tv@[0], t2);
                        if link.zone0().len() == 0 {
                            link.zone0().lemma_len0_is_empty();
                        }
                        if link.zone_s().len() == 0 {
                            link.zone_s().lemma_len0_is_empty();
                        }
                        if link.zone1().len() == 0 {
                            link.zone1().lemma_len0_is_empty();
                        }
                    }
                    assert(forced_into(queue@[0], loc_set(*fe), loc_set(*fm)));
                } else if queue@.len() > 0 {
                    assert forall|t2: (usize, usize, usize)|
                        queue@[0].feasible().len() == 1 && #[trigger] queue@[0].feasible().contains(
                            t2,
                        ) implies {
                        &&& (t2.0 == 0 ==> queue@[0].zone0().subset_of(loc_set(*fe)))
                        &&& (t2.0 == queue@[0].zone0().len() ==> queue@[0].zone0().subset_of(
                            loc_set(*fm),
                        ))
                        &&& (t2.1 == 0 ==> queue@[0].zone_s().subset_of(loc_set(*fe)))
                        &&& (t2.1 == queue@[0].zone_s().len() ==> queue@[0].zone_s().subset_of(
                            loc_set(*fm),
                        ))
                        &&& (t2.2 == 0 ==> queue@[0].zone1().subset_of(loc_set(*fe)))
                        &&& (t2.2 == queue@[0].zone1().len() ==> queue@[0].zone1().subset_of(
                            loc_set(*fm),
                        ))
                    } by {
                        assert(forced_into(queue@[0], fe_pre, fm_pre));
                    }
                    assert(forced_into(queue@[0], loc_set(*fe), loc_set(*fm)));
                }
                assert forall|a: Set<(usize, usize)>|
                    #[trigger] state_sat(
                        a,
                        old(regions)@,
                        *old(g),
                        queue@,
                        Set::empty(),
                        Set::empty(),
                    ) implies state_sat(a, regions@, *g, links@, Set::empty(), Set::empty())
                    && loc_set(*fe).difference(loc_set(*old(fe))).disjoint(a) && loc_set(
                    *fm,
                ).difference(loc_set(*old(fm))).subset_of(a) by {
                    assert(state_sat(a, regs_pre, g_pre, pre_pop, Set::empty(), Set::empty()));
                    assert(fe_pre.difference(loc_set(*old(fe))).disjoint(a));
                    assert(fm_pre.difference(loc_set(*old(fm))).subset_of(a));
                    assert(link_sat(a, link)) by {
                        assert(pre_pop[0] == link);
                    }
                    let ta = choose|t0: (usize, usize, usize)|
                        #[trigger] link.feasible().contains(t0) && t0.0 == link.zone0().intersect(
                            a,
                        ).len() && t0.1 == link.zone_s().intersect(a).len() && t0.2
                            == link.zone1().intersect(a).len();
                    assert(link.feasible().contains(tv@[0]));
                    crate::solver::region::lemma_len1_unique(link.feasible(), tv@[0], ta);
                    lemma_forced_zone(a, link.zone0(), t.0 as int);
                    lemma_forced_zone(a, link.zone_s(), t.1 as int);
                    lemma_forced_zone(a, link.zone1(), t.2 as int);
                    assert(loc_set(new_e).disjoint(a));
                    assert(loc_set(new_m).subset_of(a));
                    assert forall|i: int| 0 <= i < lq_mid.len() implies link_sat(
                        a,
                        #[trigger] lq_mid[i],
                    ) by {
                        assert(lq_mid[i] == pre_pop[i + 1]);
                    }
                    assert(state_sat(a, regs_pre, g_pre, lq_mid, loc_set(new_e), loc_set(new_m)));
                    assert(state_sat(a, regions@, *g, links@, Set::empty(), Set::empty()));
                    assert(loc_set(*fe) == fe_pre.union(loc_set(new_e)));
                    assert(loc_set(*fm) == fm_pre.union(loc_set(new_m)));
                    assert forall|p: (usize, usize)|
                        loc_set(*fe).difference(loc_set(*old(fe))).contains(p) implies !a.contains(
                        p,
                    ) by {
                        if fe_pre.contains(p) {
                            assert(fe_pre.difference(loc_set(*old(fe))).contains(p));
                        } else {
                            assert(loc_set(new_e).contains(p));
                        }
                    }
                    assert forall|p: (usize, usize)|
                        loc_set(*fm).difference(loc_set(*old(fm))).contains(p) implies a.contains(
                        p,
                    ) by {
                        if fm_pre.contains(p) {
                            assert(fm_pre.difference(loc_set(*old(fm))).contains(p));
                        } else {
                            assert(loc_set(new_m).contains(p));
                        }
                    }
                }
                first_done = true;
            }
            if changed {
                since_last_change = 0;
            }
        }
        if since_last_change >= links.len() {
            done = true;
        } else {
            since_last_change += 1;
        }
    }
    proof {
        if hyp {
            let af = choose|a: Set<(usize, usize)>|
                state_sat(a, regions@, *g, links@, Set::empty(), Set::empty());
            assert(state_sat(af, regions@, *g, Seq::empty(), Set::empty(), Set::empty()));
        }
    }
    Ok(())
}

/// A zone forced to hold no mines is disjoint from a satisfying assignment;
/// one forced to be all mines lies inside it.
pub proof fn lemma_forced_zone(aw: Set<(usize, usize)>, z: Set<(usize, usize)>, count: int)
    requires
        aw.finite(),
        z.finite(),
        z.intersect(aw).len() == count,
    ensures
        count == 0 ==> z.disjoint(aw),
        count == z.len() ==> z.subset_of(aw),
{
    if count == 0 {
        z.intersect(aw).lemma_len0_is_empty();
        assert forall|p: (usize, usize)| z.contains(p) implies !aw.contains(p) by {
            if aw.contains(p) {
                assert(z.intersect(aw).contains(p));
            }
        }
    }
    if count == z.len() {
        crate::solver::region::lemma_subset_same_len(z.intersect(aw), z);
        assert forall|p: (usize, usize)| z.contains(p) implies aw.contains(p) by {
            assert(z.intersect(aw).contains(p));
        }
    }
}

} // verus!
