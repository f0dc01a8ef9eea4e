//! Small set utilities shared by the solver.

use vstd::prelude::*;
use indexmap::IndexSet;
use crate::iset::{loc_set, loc_set_contains, loc_set_insert, loc_set_new, loc_set_to_vec};

verus! {

broadcast use vstd::seq_lib::lemma_seq_contains_after_push;

/// Split two sets of locations into the part only in the first, the part
/// shared, and the part only in the second.
pub fn split_sets(aa: &IndexSet<(usize, usize)>, bb: &IndexSet<(usize, usize)>) -> (r: (
    IndexSet<(usize, usize)>,
    IndexSet<(usize, usize)>,
    IndexSet<(usize, usize)>,
))
    ensures
        loc_set(r.0) == loc_set(*aa).difference(loc_set(*bb)) && loc_set(r.0).finite(),
        loc_set(r.1) == loc_set(*aa).intersect(loc_set(*bb)) && loc_set(r.1).finite(),
        loc_set(r.2) == loc_set(*bb).difference(loc_set(*aa)) && loc_set(r.2).finite(),
{
    let av = loc_set_to_vec(aa);
    let mut left = loc_set_new();
    let mut shared = loc_set_new();
    let mut i: usize = 0;
    while i < av.len()
        invariant
            i <= av@.len(),
            av@.to_set() == loc_set(*aa),
            loc_set(left) == av@.take(i as int).to_set().difference(loc_set(*bb)),
            loc_set(left).finite(),
            loc_set(shared) == av@.take(i as int).to_set().intersect(loc_set(*bb)),
            loc_set(shared).finite(),
        decreases av@.len() - i,
    {
        let p = av[i];
        if loc_set_contains(bb, p) {
            loc_set_insert(&mut shared, p);
        } else {
            loc_set_insert(&mut left, p);
        }
        proof {
            assert(av@.take(i + 1) =~= av@.take(i as int).push(p));
            assert(loc_set(left) =~= av@.take(i + 1).to_set().difference(loc_set(*bb)));
            assert(loc_set(shared) =~= av@.take(i + 1).to_set().intersect(loc_set(*bb)));
        }
        i += 1;
    }
    proof {
        assert(av@.take(av@.len() as int) =~= av@);
        assert(loc_set(left) =~= loc_set(*aa).difference(loc_set(*bb)));
        assert(loc_set(shared) =~= loc_set(*aa).intersect(loc_set(*bb)));
    }
    let bv = loc_set_to_vec(bb);
    let mut right = loc_set_new();
    let mut j: usize = 0;
    while j < bv.len()
        invariant
            j <= bv@.len(),
            bv@.to_set() == loc_set(*bb),
            loc_set(right) == bv@.take(j as int).to_set().difference(loc_set(*aa)),
            loc_set(right).finite(),
        decreases bv@.len() - j,
    {
        let p = bv[j];
        if !loc_set_contains(aa, p) {
            loc_set_insert(&mut right, p);
        }
        proof {
            assert(bv@.take(j + 1) =~= bv@.take(j as int).push(p));
            assert(loc_set(right) =~= bv@.take(j + 1).to_set().difference(loc_set(*aa)));
        }
        j += 1;
    }
    proof {
        assert(bv@.take(bv@.len() as int) =~= bv@);
        assert(loc_set(right) =~= loc_set(*bb).difference(loc_set(*aa)));
    }
    (left, shared, right)
}

} // verus!
