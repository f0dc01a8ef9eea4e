//! Connected components: a disjoint-set forest over region indices, joining
//! two regions whenever their hidden cells overlap, so that links are only
//! formed and propagated inside one component at a time.
//!
//! The forest's partition is modelled by a ghost map from each index to the
//! canonical representative of its class: `root` returns exactly that
//! representative and changes no class, `join` merges exactly the two
//! classes at hand, and `split_on_groups` groups the indices by class.

use vstd::prelude::*;
use crate::solver::region::Region;

verus! {

/// One node of the forest: a parent index and a rank bounding tree depth.
struct DsNode {
    parent: usize,
    rank: usize,
}

/// A disjoint-set forest over the indices `0 .. len`, with path compression
/// and union by rank.  `repr` is the ghost model: each index's canonical
/// class representative.
pub struct DisjointSet {
    nodes: Vec<DsNode>,
    repr: Ghost<Seq<int>>,
}

/// The indices that are their own parent.
spec fn roots_of(s: Seq<DsNode>) -> Set<int> {
    Set::new(|i: int| 0 <= i < s.len() && s[i].parent == i)
}

/// The root set of a forest is a subset of the index range, hence finite.
proof fn lemma_roots_finite(s: Seq<DsNode>)
    ensures
        roots_of(s).finite(),
        roots_of(s).len() <= s.len(),
{
    let rng = vstd::set_lib::set_int_range(0, s.len() as int);
    vstd::set_lib::lemma_int_range(0, s.len() as int);
    assert(roots_of(s).subset_of(rng));
    vstd::set_lib::lemma_len_subset(roots_of(s), rng);
}

/// The index of a maximum-rank node among the first `k`.
spec fn argmax_rank(s: Seq<DsNode>, k: int) -> int
    decreases k,
{
    if k <= 1 {
        0
    } else {
        let r = argmax_rank(s, k - 1);
        if s[k - 1].rank > s[r].rank {
            k - 1
        } else {
            r
        }
    }
}

proof fn lemma_argmax_rank(s: Seq<DsNode>, k: int)
    requires
        1 <= k <= s.len(),
    ensures
        0 <= argmax_rank(s, k) < k,
        forall|i: int| 0 <= i < k ==> (#[trigger] s[i]).rank <= s[argmax_rank(s, k)].rank,
    decreases k,
{
    if k > 1 {
        lemma_argmax_rank(s, k - 1);
    }
}

/// A nonempty forest whose edges climb in rank has a root: its node of
/// maximal rank.
proof fn lemma_has_root(s: Seq<DsNode>)
    requires
        s.len() >= 1,
        forall|i: int| 0 <= i < s.len() ==> (#[trigger] s[i]).parent < s.len(),
        forall|i: int|
            0 <= i < s.len() && (#[trigger] s[i]).parent != i ==> s[s[i].parent as int].rank
                > s[i].rank,
    ensures
        roots_of(s).len() >= 1,
        roots_of(s).finite(),
{
    lemma_roots_finite(s);
    let m = argmax_rank(s, s.len() as int);
    lemma_argmax_rank(s, s.len() as int);
    assert(s[m].parent == m);
    assert(roots_of(s).contains(m));
}

impl DisjointSet {
    /// How many indices the forest covers.
    pub closed spec fn spec_len(self) -> nat {
        self.nodes@.len()
    }

    /// The canonical representative of the class holding index `i`.
    pub closed spec fn class_of(self, i: int) -> int {
        self.repr@[i]
    }

    /// The forest is well formed: parents in range, edges climbing in rank,
    /// ranks leaving room for the live roots, and the ghost classes
    /// canonical and constant along every edge.
    pub closed spec fn wf(self) -> bool {
        &&& self.repr@.len() == self.nodes@.len()
        &&& forall|i: int|
            0 <= i < self.nodes@.len() ==> (#[trigger] self.nodes@[i]).parent < self.nodes@.len()
        &&& forall|i: int|
            0 <= i < self.nodes@.len() && (#[trigger] self.nodes@[i]).parent != i
                ==> self.nodes@[self.nodes@[i].parent as int].rank > self.nodes@[i].rank
        &&& forall|i: int|
            0 <= i < self.nodes@.len() ==> (#[trigger] self.nodes@[i]).rank + roots_of(
                self.nodes@,
            ).len() <= self.nodes@.len()
        &&& forall|i: int| 0 <= i < self.nodes@.len() ==> 0 <= #[trigger] self.repr@[i]
            < self.nodes@.len()
        &&& forall|i: int|
            0 <= i < self.nodes@.len() ==> #[trigger] self.repr@[self.repr@[i]] == self.repr@[i]
        &&& forall|i: int|
            0 <= i < self.nodes@.len() ==> #[trigger] self.repr@[self.nodes@[i].parent as int]
                == self.repr@[i]
        &&& forall|i: int|
            0 <= i < self.nodes@.len() && (#[trigger] self.nodes@[i]).parent == i
                ==> self.repr@[i] == i
        &&& forall|i: int|
            0 <= i < self.nodes@.len() && #[trigger] self.repr@[i] == i ==> self.nodes@[i].parent
                == i
    }

    /// A forest of `len` singletons: every index is its own class.
    pub fn new(len: usize) -> (r: DisjointSet)
        ensures
            r.wf(),
            r.spec_len() == len,
            forall|i: int| 0 <= i < len ==> #[trigger] r.class_of(i) == i,
    {
        let mut v: Vec<DsNode> = Vec::new();
        while v.len() < len
            invariant
                v@.len() <= len,
                forall|i: int|
                    0 <= i < v@.len() ==> (#[trigger] v@[i]).parent == i && v@[i].rank == 0,
            decreases len - v@.len(),
        {
            let a = v.len();
            v.push(DsNode { parent: a, rank: 0 });
        }
        let r = DisjointSet { nodes: v, repr: Ghost(Seq::new(len as nat, |i: int| i)) };
        proof {
            let rng = vstd::set_lib::set_int_range(0, len as int);
            vstd::set_lib::lemma_int_range(0, len as int);
            assert(roots_of(r.nodes@) =~= rng);
        }
        r
    }

    /// How many indices the forest covers.
    pub fn len(&self) -> (n: usize)
        ensures
            n == self.spec_len(),
    {
        self.nodes.len()
    }

    /// The representative of `id`'s class; the walked path is compressed.
    /// No class changes.
    pub fn root(&mut self, id: usize) -> (r: usize)
        requires
            old(self).wf(),
            id < old(self).spec_len(),
        ensures
            final(self).wf(),
            final(self).spec_len() == old(self).spec_len(),
            r < final(self).spec_len(),
            r as int == old(self).class_of(id as int),
            forall|i: int|
                0 <= i < old(self).spec_len() ==> #[trigger] final(self).class_of(i) == old(
                    self,
                ).class_of(i),
    {
        let n = self.nodes.len();
        let mut cur = id;
        let mut path: Vec<usize> = Vec::new();
        let mut fuel: usize = n;
        while fuel > 0 && self.nodes[cur].parent != cur
            invariant
                self.wf(),
                *self == *old(self),
                self.spec_len() == n,
                cur < n,
                fuel <= n,
                n - fuel <= self.nodes@[cur as int].rank,
                self.class_of(cur as int) == self.class_of(id as int),
                forall|k: int| 0 <= k < path@.len() ==> (#[trigger] path@[k]) < n,
                forall|k: int|
                    0 <= k < path@.len() ==> self.nodes@[#[trigger] path@[k] as int].rank
                        < self.nodes@[cur as int].rank,
                forall|k: int|
                    0 <= k < path@.len() ==> self.class_of(#[trigger] path@[k] as int)
                        == self.class_of(id as int),
                forall|k: int|
                    0 <= k < path@.len() ==> self.nodes@[#[trigger] path@[k] as int].parent
                        != path@[k],
            decreases fuel,
        {
            path.push(cur);
            cur = self.nodes[cur].parent;
            fuel -= 1;
        }
        proof {
            if self.nodes@[cur as int].parent != cur {
                lemma_has_root(self.nodes@);
                assert(self.nodes@[cur as int].rank + roots_of(self.nodes@).len()
                    <= self.nodes@.len());
                assert(false);
            }
            assert(self.class_of(cur as int) == cur);
        }
        let mut i: usize = 0;
        while i < path.len()
            invariant
                self.wf(),
                self.repr@ == old(self).repr@,
                self.spec_len() == n,
                n == old(self).spec_len(),
                cur < n,
                self.nodes@[cur as int].parent == cur,
                cur as int == old(self).class_of(id as int),
                forall|k: int| 0 <= k < path@.len() ==> (#[trigger] path@[k]) < n,
                forall|k: int|
                    0 <= k < path@.len() ==> self.nodes@[#[trigger] path@[k] as int].rank
                        < self.nodes@[cur as int].rank,
                forall|k: int|
                    0 <= k < path@.len() ==> self.class_of(#[trigger] path@[k] as int)
                        == self.class_of(id as int),
                roots_of(self.nodes@) == roots_of(old(self).nodes@),
            decreases path@.len() - i,
        {
            let p = path[i];
            let rank = self.nodes[p].rank;
            let ghost nodes0 = self.nodes@;
            self.nodes[p] = DsNode { parent: cur, rank };
            proof {
                assert(p != cur);
                assert(roots_of(self.nodes@) =~= roots_of(nodes0));
            }
            i += 1;
        }
        cur
    }

    /// Join the classes holding the two indices: the lower-ranked root is
    /// hung under the higher-ranked one, which becomes the representative of
    /// the merged class.  Every other class is untouched.
    pub fn join(&mut self, id_0: usize, id_1: usize) -> (r: usize)
        requires
            old(self).wf(),
            id_0 < old(self).spec_len(),
            id_1 < old(self).spec_len(),
        ensures
            final(self).wf(),
            final(self).spec_len() == old(self).spec_len(),
            r < final(self).spec_len(),
            r as int == final(self).class_of(id_0 as int),
            final(self).class_of(id_0 as int) == final(self).class_of(id_1 as int),
            r as int == old(self).class_of(id_0 as int) || r as int == old(self).class_of(
                id_1 as int,
            ),
            forall|i: int|
                0 <= i < old(self).spec_len() ==> #[trigger] final(self).class_of(i) == (
                if old(self).class_of(i) == old(self).class_of(id_0 as int) || old(self).class_of(
                    i,
                ) == old(self).class_of(id_1 as int) {
                    r as int
                } else {
                    old(self).class_of(i)
                }),
    {
        let r0 = self.root(id_0);
        let r1 = self.root(id_1);
        if r0 == r1 {
            return r0;
        }
        let rank0 = self.nodes[r0].rank;
        let rank1 = self.nodes[r1].rank;
        let (winner, loser) = if rank0 < rank1 {
            (r1, r0)
        } else {
            (r0, r1)
        };
        proof {
            assert(self.class_of(id_0 as int) == r0 as int);
            assert(self.class_of(id_1 as int) == r1 as int);
            assert(self.repr@[self.repr@[id_0 as int]] == self.repr@[id_0 as int]);
            assert(self.repr@[self.repr@[id_1 as int]] == self.repr@[id_1 as int]);
            assert(self.repr@[r0 as int] == r0 as int);
            assert(self.repr@[r1 as int] == r1 as int);
            assert(self.nodes@[winner as int].parent == winner);
            assert(self.nodes@[loser as int].parent == loser);
            assert(roots_of(self.nodes@).contains(winner as int));
            lemma_roots_finite(self.nodes@);
            if roots_of(self.nodes@).len() == 0 {
                assert(roots_of(self.nodes@) =~= Set::empty());
            }
            assert(self.nodes@[winner as int].rank + 1 <= self.nodes@.len());
        }
        let ghost mid = *self;
        if rank0 == rank1 {
            let wr = self.nodes[winner].rank;
            let cap = self.nodes.len();
            assert(wr < cap);
            let ghost nodes0 = self.nodes@;
            self.nodes[winner] = DsNode { parent: winner, rank: wr + 1 };
            proof {
                assert(roots_of(self.nodes@) =~= roots_of(nodes0));
            }
        }
        let ghost nodes1 = self.nodes@;
        let ghost n = self.nodes@.len() as int;
        self.nodes[loser] = DsNode { parent: winner, rank: self.nodes[loser].rank };
        proof {
            assert(roots_of(self.nodes@) =~= roots_of(nodes1).remove(loser as int));
            lemma_roots_finite(nodes1);
            assert(roots_of(nodes1).contains(loser as int));
            self.repr = Ghost(
                Seq::new(
                    mid.repr@.len(),
                    |i: int|
                        if mid.repr@[i] == loser as int {
                            winner as int
                        } else {
                            mid.repr@[i]
                        },
                ),
            );
            assert forall|i: int| 0 <= i < old(self).spec_len() implies #[trigger] self.class_of(
                i,
            ) == (if old(self).class_of(i) == old(self).class_of(id_0 as int) || old(
                self,
            ).class_of(i) == old(self).class_of(id_1 as int) {
                winner as int
            } else {
                old(self).class_of(i)
            }) by {
                assert(mid.class_of(i) == old(self).class_of(i));
            }
        }
        winner
    }

    /// Build a forest over the regions, joining every pair whose hidden
    /// cells overlap: overlapping regions always end in one class.
    pub fn run(els: &Vec<Region>) -> (r: DisjointSet)
        ensures
            r.wf(),
            r.spec_len() == els@.len(),
            forall|i0: int, i1: int|
                0 <= i0 < els@.len() && 0 <= i1 < els@.len() && !(#[trigger] els@[i0]).locs()
                    .disjoint((#[trigger] els@[i1]).locs()) ==> r.class_of(i0) == r.class_of(i1),
    {
        let mut unions = DisjointSet::new(els.len());
        let mut i0: usize = 0;
        while i0 < els.len()
            invariant
                unions.wf(),
                unions.spec_len() == els@.len(),
                i0 <= els@.len(),
                forall|a: int, b: int|
                    0 <= a < i0 && a < b < els@.len() && !(#[trigger] els@[a]).locs().disjoint(
                        (#[trigger] els@[b]).locs(),
                    ) ==> unions.class_of(a) == unions.class_of(b),
            decreases els@.len() - i0,
        {
            let mut i1: usize = i0 + 1;
            while i1 < els.len()
                invariant
                    unions.wf(),
                    unions.spec_len() == els@.len(),
                    i0 < els@.len(),
                    i0 < i1 <= els@.len(),
                    forall|a: int, b: int|
                        0 <= a < b < els@.len() && (a < i0 || (a == i0 && b < i1)) && !(
                        #[trigger] els@[a]).locs().disjoint((#[trigger] els@[b]).locs())
                            ==> unions.class_of(a) == unions.class_of(b),
                decreases els@.len() - i1,
            {
                if regions_joint(&els[i0], &els[i1]) {
                    let ghost u0 = unions;
                    unions.join(i0, i1);
                    proof {
                        assert forall|a: int, b: int|
                            0 <= a < b < els@.len() && (a < i0 || (a == i0 && b < i1 + 1)) && !(
                            #[trigger] els@[a]).locs().disjoint((#[trigger] els@[b]).locs())
                                implies unions.class_of(a) == unions.class_of(b) by {
                            if a < i0 || (a == i0 && b < i1) {
                                assert(u0.class_of(a) == u0.class_of(b));
                            }
                        }
                    }
                }
                i1 += 1;
            }
            i0 += 1;
        }
        proof {
            assert forall|i0: int, i1: int|
                0 <= i0 < els@.len() && 0 <= i1 < els@.len() && !(#[trigger] els@[i0]).locs()
                    .disjoint((#[trigger] els@[i1]).locs()) implies unions.class_of(i0)
                == unions.class_of(i1) by {
                if i0 < i1 {
                } else if i1 < i0 {
                    assert(!els@[i1].locs().disjoint(els@[i0].locs()));
                }
            }
        }
        unions
    }

    /// The indices `0 .. len`, grouped by class: each index lands in exactly
    /// one group, the group sizes total the index count, and two indices
    /// share a group exactly when they share a class.
    #[verifier::rlimit(100)]
    pub fn split_on_groups(&mut self) -> (groups: Vec<Vec<usize>>)
        requires
            old(self).wf(),
        ensures
            final(self).wf(),
            final(self).spec_len() == old(self).spec_len(),
            forall|i: int|
                0 <= i < old(self).spec_len() ==> #[trigger] final(self).class_of(i) == old(
                    self,
                ).class_of(i),
            forall|g: int, k: int|
                0 <= g < groups@.len() && 0 <= k < groups@[g]@.len() ==> (
                #[trigger] groups@[g]@[k]) < old(self).spec_len(),
            forall|id: int| 0 <= id < old(self).spec_len() ==> #[trigger] appears(groups@, id),
            group_total(groups@) == old(self).spec_len(),
            forall|g: int, k: int, g2: int, k2: int|
                0 <= g < groups@.len() && 0 <= k < groups@[g]@.len() && 0 <= g2 < groups@.len() && 0
                    <= k2 < groups@[g2]@.len() ==> ((g == g2) <==> old(self).class_of(
                    (#[trigger] groups@[g]@[k]) as int,
                ) == old(self).class_of((#[trigger] groups@[g2]@[k2]) as int)),
    {
        let n = self.nodes.len();
        let mut slot: Vec<usize> = Vec::new();
        while slot.len() < n
            invariant
                slot@.len() <= n,
                forall|t: int| 0 <= t < slot@.len() ==> (#[trigger] slot@[t]) == n,
            decreases n - slot@.len(),
        {
            slot.push(n);
        }
        let mut groups: Vec<Vec<usize>> = Vec::new();
        let ghost mut place: Seq<(int, int)> = Seq::empty();
        let ghost mut gclass: Seq<int> = Seq::empty();
        let mut id: usize = 0;
        while id < n
            invariant
                self.wf(),
                old(self).wf(),
                self.spec_len() == n,
                n == old(self).spec_len(),
                forall|i: int|
                    0 <= i < n ==> #[trigger] self.class_of(i) == old(self).class_of(i),
                slot@.len() == n,
                id <= n,
                groups@.len() <= id,
                gclass.len() == groups@.len(),
                forall|t: int| 0 <= t < n ==> (#[trigger] slot@[t]) == n || slot@[t] < groups@.len(),
                forall|g: int, k: int|
                    0 <= g < groups@.len() && 0 <= k < groups@[g]@.len() ==> (
                    #[trigger] groups@[g]@[k]) < n,
                place.len() == id,
                forall|t: int|
                    0 <= t < id ==> 0 <= (#[trigger] place[t]).0 < groups@.len() && 0 <= place[t].1
                        < groups@[place[t].0]@.len() && groups@[place[t].0]@[place[t].1] == t,
                group_total(groups@) == id,
                forall|g: int|
                    0 <= g < groups@.len() ==> 0 <= #[trigger] gclass[g] < n && slot@[gclass[g]]
                        == g,
                forall|g: int, k: int|
                    0 <= g < groups@.len() && 0 <= k < groups@[g]@.len() ==> old(self).class_of(
                        (#[trigger] groups@[g]@[k]) as int,
                    ) == gclass[g],
                forall|t: int|
                    0 <= t < n && (#[trigger] slot@[t]) != n ==> gclass[slot@[t] as int] == t
                        && old(self).class_of(t) == t,
            decreases n - id,
        {
            let rt = self.root(id);
            proof {
                assert(rt as int == old(self).class_of(id as int));
                assert(old(self).class_of(rt as int) == rt as int);
            }
            let s = slot[rt];
            if s == n {
                slot[rt] = groups.len();
                let mut fresh: Vec<usize> = Vec::new();
                fresh.push(id);
                let ghost groups0 = groups@;
                groups.push(fresh);
                proof {
                    place = place.push((groups0.len() as int, 0int));
                    gclass = gclass.push(rt as int);
                    assert(groups@.drop_last() =~= groups0);
                    assert forall|t: int|
                        0 <= t < id + 1 implies 0 <= (#[trigger] place[t]).0 < groups@.len() && 0
                        <= place[t].1 < groups@[place[t].0]@.len()
                        && groups@[place[t].0]@[place[t].1] == t by {
                        if t < id {
                            assert(groups@[place[t].0] == groups0[place[t].0]);
                        }
                    }
                }
            } else {
                let ghost groups0 = groups@;
                let ghost row0 = groups@[s as int]@;
                groups[s].push(id);
                proof {
                    place = place.push((s as int, row0.len() as int));
                    assert(groups@ =~= groups0.update(s as int, groups@[s as int]));
                    lemma_group_total_update(groups0, s as int, groups@[s as int]);
                    assert(gclass[s as int] == rt as int);
                    assert forall|t: int|
                        0 <= t < id + 1 implies 0 <= (#[trigger] place[t]).0 < groups@.len() && 0
                        <= place[t].1 < groups@[place[t].0]@.len()
                        && groups@[place[t].0]@[place[t].1] == t by {
                        if t < id {
                            if place[t].0 == s as int {
                                assert(groups@[s as int]@[place[t].1] == row0[place[t].1]);
                            } else {
                                assert(groups@[place[t].0] == groups0[place[t].0]);
                            }
                        }
                    }
                }
            }
            id += 1;
        }
        proof {
            assert forall|t: int| 0 <= t < n implies #[trigger] appears(groups@, t) by {
                assert(0 <= (place[t]).0 < groups@.len() && 0 <= place[t].1
                    < groups@[place[t].0]@.len() && groups@[place[t].0]@[place[t].1] == t);
            }
            assert forall|g: int, k: int, g2: int, k2: int|
                0 <= g < groups@.len() && 0 <= k < groups@[g]@.len() && 0 <= g2 < groups@.len() && 0
                    <= k2 < groups@[g2]@.len() implies ((g == g2) <==> old(self).class_of(
                (#[trigger] groups@[g]@[k]) as int,
            ) == old(self).class_of((#[trigger] groups@[g2]@[k2]) as int)) by {
                if g != g2 && gclass[g] == gclass[g2] {
                    assert(slot@[gclass[g]] == g && slot@[gclass[g2]] == g2);
                    assert(false);
                }
            }
        }
        groups
    }
}

/// The index can be found in some group.
pub open spec fn appears(groups: Seq<Vec<usize>>, id: int) -> bool {
    exists|g: int, k: int|
        0 <= g < groups.len() && 0 <= k < groups[g]@.len() && #[trigger] groups[g]@[k] == id
}

/// The total number of entries across all the groups.
pub open spec fn group_total(groups: Seq<Vec<usize>>) -> int
    decreases groups.len(),
{
    if groups.len() == 0 {
        0
    } else {
        group_total(groups.drop_last()) + groups.last()@.len()
    }
}

/// Growing one group by one entry grows the total by one.
proof fn lemma_group_total_update(groups: Seq<Vec<usize>>, s: int, v: Vec<usize>)
    requires
        0 <= s < groups.len(),
        v@.len() == groups[s]@.len() + 1,
    ensures
        group_total(groups.update(s, v)) == group_total(groups) + 1,
    decreases groups.len(),
{
    if s == groups.len() - 1 {
        assert(groups.update(s, v).drop_last() =~= groups.drop_last());
        assert(groups.update(s, v).last() == v);
    } else {
        assert(groups.update(s, v).drop_last() =~= groups.drop_last().update(s, v));
        assert(groups.update(s, v).last() == groups.last());
        lemma_group_total_update(groups.drop_last(), s, v);
    }
}

/// A region index pair is joint when the two regions watch at least one
/// common hidden cell.
pub fn regions_joint(a: &Region, b: &Region) -> (r: bool)
    ensures
        r == !a.locs().disjoint(b.locs()),
{
    let av = a.hidden_locs();
    let mut i: usize = 0;
    while i < av.len()
        invariant
            i <= av@.len(),
            av@.to_set() == a.locs(),
            forall|k: int| 0 <= k < i ==> !b.locs().contains(#[trigger] av@[k]),
        decreases av@.len() - i,
    {
        let p = av[i];
        if b.contains_loc(p) {
            proof {
                assert(a.locs().contains(p));
            }
            return true;
        }
        i += 1;
    }
    proof {
        assert forall|p: (usize, usize)| a.locs().contains(p) implies !b.locs().contains(p) by {
            assert(av@.contains(p));
            let k = choose|k: int| 0 <= k < av@.len() && av@[k] == p;
            assert(!b.locs().contains(av@[k]));
        }
    }
    false
}

/// Cluster the regions: the indices grouped by connected component, so that
/// two regions sharing a hidden cell always land in one group, every index
/// lands in exactly one group, and groups hold whole classes.
pub fn run(regions: &Vec<Region>) -> (groups: Vec<Vec<usize>>)
    ensures
        forall|g: int, k: int|
            0 <= g < groups@.len() && 0 <= k < groups@[g]@.len() ==> (#[trigger] groups@[g]@[k])
                < regions@.len(),
        forall|id: int| 0 <= id < regions@.len() ==> #[trigger] appears(groups@, id),
        group_total(groups@) == regions@.len(),
        forall|g: int, k: int, g2: int, k2: int|
            0 <= g < groups@.len() && 0 <= k < groups@[g]@.len() && 0 <= g2 < groups@.len() && 0
                <= k2 < groups@[g2]@.len() && !regions@[(#[trigger] groups@[g]@[k]) as int].locs()
                .disjoint(regions@[(#[trigger] groups@[g2]@[k2]) as int].locs()) ==> g == g2,
{
    let mut unions = DisjointSet::run(regions);
    let groups = unions.split_on_groups();
    proof {
        assert forall|g: int, k: int, g2: int, k2: int|
            0 <= g < groups@.len() && 0 <= k < groups@[g]@.len() && 0 <= g2 < groups@.len() && 0
                <= k2 < groups@[g2]@.len() && !regions@[(#[trigger] groups@[g]@[k]) as int].locs()
                .disjoint(regions@[(#[trigger] groups@[g2]@[k2]) as int].locs()) implies g
            == g2 by {
            assert(groups@[g]@[k] < regions@.len() && groups@[g2]@[k2] < regions@.len());
        }
    }
    groups
}

} // verus!
