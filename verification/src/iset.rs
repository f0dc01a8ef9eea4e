//! Trusted interface to `indexmap::IndexSet`, the set type the solver stores
//! its locations and its feasible mine-count triples in.
//!
//! The two `uninterp` spec functions name the mathematical contents of a set;
//! every wrapper below states what the wrapped `indexmap` call does to those
//! contents.  An `IndexSet` always holds finitely many elements, so the
//! wrappers also report the contents as a finite set.

use vstd::prelude::*;
use indexmap::IndexSet;

verus! {

#[verifier::external_type_specification]
#[verifier::external_body]
#[verifier::reject_recursive_types(T)]
#[verifier::reject_recursive_types(S)]
pub struct ExIndexSet<T, S>(IndexSet<T, S>);

/// The elements held by a set of board locations.
pub uninterp spec fn loc_set(s: IndexSet<(usize, usize)>) -> Set<(usize, usize)>;

/// The elements held by a set of mine-count triples.
pub uninterp spec fn tri_set(s: IndexSet<(usize, usize, usize)>) -> Set<(usize, usize, usize)>;

/// Relies on `IndexSet::new`: creates an empty set.
#[verifier::external_body]
pub fn loc_set_new() -> (r: IndexSet<(usize, usize)>)
    ensures
        loc_set(r) == Set::<(usize, usize)>::empty() && loc_set(r).finite(),
{
    IndexSet::new()
}

/// Relies on `IndexSet::len`: the number of elements held.
#[verifier::external_body]
pub fn loc_set_len(s: &IndexSet<(usize, usize)>) -> (r: usize)
    ensures
        r == loc_set(*s).len(),
{
    s.len()
}

/// Relies on `IndexSet::insert`: adds the value, reports whether it was new.
#[verifier::external_body]
pub fn loc_set_insert(s: &mut IndexSet<(usize, usize)>, v: (usize, usize)) -> (r: bool)
    ensures
        loc_set(*final(s)) == loc_set(*old(s)).insert(v) && loc_set(*final(s)).finite()
            && loc_set(*old(s)).finite(),
        r == !loc_set(*old(s)).contains(v),
{
    s.insert(v)
}

/// Relies on `IndexSet::contains`: membership test.
#[verifier::external_body]
pub fn loc_set_contains(s: &IndexSet<(usize, usize)>, v: (usize, usize)) -> (r: bool)
    ensures
        r == loc_set(*s).contains(v),
{
    s.contains(&v)
}

/// Relies on `IndexSet::shift_remove`: removes the value, reports whether it
/// was present.
#[verifier::external_body]
pub fn loc_set_remove(s: &mut IndexSet<(usize, usize)>, v: (usize, usize)) -> (r: bool)
    ensures
        loc_set(*final(s)) == loc_set(*old(s)).remove(v) && loc_set(*final(s)).finite()
            && loc_set(*old(s)).finite(),
        r == loc_set(*old(s)).contains(v),
{
    s.shift_remove(&v)
}

/// Relies on `IndexSet::iter`: yields each element exactly once.
#[verifier::external_body]
pub fn loc_set_to_vec(s: &IndexSet<(usize, usize)>) -> (r: Vec<(usize, usize)>)
    ensures
        r@.no_duplicates() && r@.to_set() == loc_set(*s) && r@.len() == loc_set(*s).len(),
{
    s.iter().copied().collect()
}

/// Relies on `IndexSet::clone`: the copy holds the same elements.
#[verifier::external_body]
pub fn loc_set_clone(s: &IndexSet<(usize, usize)>) -> (r: IndexSet<(usize, usize)>)
    ensures
        loc_set(r) == loc_set(*s) && loc_set(r).finite(),
{
    s.clone()
}

/// Relies on `IndexSet::new`: creates an empty set.
#[verifier::external_body]
pub fn tri_set_new() -> (r: IndexSet<(usize, usize, usize)>)
    ensures
        tri_set(r) == Set::<(usize, usize, usize)>::empty() && tri_set(r).finite(),
{
    IndexSet::new()
}

/// Relies on `IndexSet::len`: the number of elements held.
#[verifier::external_body]
pub fn tri_set_len(s: &IndexSet<(usize, usize, usize)>) -> (r: usize)
    ensures
        r == tri_set(*s).len(),
{
    s.len()
}

/// Relies on `IndexSet::insert`: adds the value, reports whether it was new.
#[verifier::external_body]
pub fn tri_set_insert(s: &mut IndexSet<(usize, usize, usize)>, v: (usize, usize, usize)) -> (r:
    bool)
    ensures
        tri_set(*final(s)) == tri_set(*old(s)).insert(v) && tri_set(*final(s)).finite()
            && tri_set(*old(s)).finite(),
        r == !tri_set(*old(s)).contains(v),
{
    s.insert(v)
}

/// Relies on `IndexSet::iter`: yields each element exactly once.
#[verifier::external_body]
pub fn tri_set_to_vec(s: &IndexSet<(usize, usize, usize)>) -> (r: Vec<(usize, usize, usize)>)
    ensures
        r@.no_duplicates() && r@.to_set() == tri_set(*s) && r@.len() == tri_set(*s).len(),
{
    s.iter().copied().collect()
}

} // verus!
