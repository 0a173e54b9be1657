//! Disjoint sets over `0..n` with union by rank and path compression.

use vstd::arithmetic::power2::{lemma2_to64, lemma2_to64_rest, lemma_pow2_unfold, lemma_pow2_strictly_increases, pow2};
use vstd::prelude::*;
use vstd::set_lib::{lemma_int_range, lemma_len_subset, lemma_set_disjoint_lens, set_int_range};

verus! {

/// The members of the set whose representative is `r`.
pub open spec fn class_of(rep: Seq<usize>, r: usize) -> Set<int> {
    Set::new(|x: int| 0 <= x < rep.len() && rep[x] == r)
}

/// The root a union of the sets of `a` and `b` keeps: the one of higher
/// rank, `a`'s on a tie.
pub open spec fn union_keeps(rep: Seq<usize>, rank: Seq<u8>, a: int, b: int) -> usize {
    if rank[rep[a] as int] < rank[rep[b] as int] {
        rep[b]
    } else {
        rep[a]
    }
}

/// Representatives after a union of the sets of `a` and `b`: the set whose
/// root is not kept moves under the kept root.
pub open spec fn union_reps(rep: Seq<usize>, rank: Seq<u8>, a: int, b: int) -> Seq<usize> {
    let keep = union_keeps(rep, rank, a, b);
    let lose = if keep == rep[a] { rep[b] } else { rep[a] };
    if rep[a] == rep[b] {
        rep
    } else {
        rep.map_values(|x: usize| if x == lose { keep } else { x })
    }
}

/// Ranks after a union: joining two roots of equal rank raises the kept
/// root's rank by one.
pub open spec fn union_ranks(rep: Seq<usize>, rank: Seq<u8>, a: int, b: int) -> Seq<u8> {
    if rep[a] != rep[b] && rank[rep[a] as int] == rank[rep[b] as int] {
        rank.update(rep[a] as int, (rank[rep[a] as int] + 1) as u8)
    } else {
        rank
    }
}

/// Representatives and ranks after the unions of `pairs`, in order,
/// starting from `n` singletons of rank zero.
pub open spec fn union_run(n: nat, pairs: Seq<(int, int)>) -> (Seq<usize>, Seq<u8>)
    decreases pairs.len(),
{
    if pairs.len() == 0 {
        (Seq::new(n, |x: int| x as usize), Seq::new(n, |x: int| 0u8))
    } else {
        let (rep, rank) = union_run(n, pairs.drop_last());
        let (a, b) = pairs.last();
        (union_reps(rep, rank, a, b), union_ranks(rep, rank, a, b))
    }
}

/// A forest of parent links; each element's root is its set's representative.
pub struct UnionFind {
    parent: Vec<usize>,
    rank: Vec<u8>,
    /// The root each element leads to.
    rep: Ghost<Seq<usize>>,
    /// Heights grow towards the root, which bounds every walk to a root.
    height: Ghost<Seq<nat>>,
    top: Ghost<nat>,
}

proof fn lemma_class_len(rep: Seq<usize>, r: usize)
    ensures
        class_of(rep, r).finite(),
        class_of(rep, r).len() <= rep.len(),
{
    lemma_int_range(0, rep.len() as int);
    lemma_len_subset(class_of(rep, r), set_int_range(0, rep.len() as int));
}

impl UnionFind {
    /// The representative of each element.
    pub closed spec fn reps(self) -> Seq<usize> {
        self.rep@
    }

    /// The rank of each element (meaningful at roots).
    pub closed spec fn ranks(self) -> Seq<u8> {
        self.rank@
    }

    /// How far an element's height lies below the highest.
    pub closed spec fn slack(self, v: int) -> int {
        self.top@ - self.height@[v]
    }

    /// The parent link of an element.
    pub closed spec fn parent_of(self, x: int) -> usize {
        self.parent@[x]
    }

    /// The height of an element in the forest.
    pub closed spec fn level(self, x: int) -> nat {
        self.height@[x]
    }

    /// Number of elements.
    pub closed spec fn size(self) -> nat {
        self.parent.len() as nat
    }

    /// Parent links, representatives and heights agree.
    pub closed spec fn shape(self) -> bool {
        let n = self.parent.len();
        let p = self.parent@;
        let rep = self.rep@;
        let h = self.height@;
        &&& self.rank.len() == n
        &&& rep.len() == n
        &&& h.len() == n
        &&& forall|x: int|
            0 <= x < n ==> {
                &&& (#[trigger] p[x]) < n
                &&& rep[x] < n
                &&& p[rep[x] as int] == rep[x]
                &&& rep[p[x] as int] == rep[x]
                &&& (p[x] == x ==> rep[x] == x)
                &&& (p[x] != x ==> h[p[x] as int] > h[x] && h[rep[x] as int] > h[x])
                &&& h[x] <= self.top@
            }
    }

    /// Every root other than `skip` heads a set of at least `2^rank` members.
    pub closed spec fn sized_except(self, skip: int) -> bool {
        forall|x: int|
            0 <= x < self.parent.len() && x != skip && (#[trigger] self.parent@[x]) == x ==> pow2(
                self.rank@[x] as nat,
            ) <= class_of(self.rep@, x as usize).len()
    }

    pub closed spec fn wf(self) -> bool {
        self.shape() && self.sized_except(-1)
    }

    /// Every element alone in its set.
    pub fn new(size: usize) -> (u: UnionFind)
        ensures
            u.wf(),
            u.reps().len() == size,
            u.size() == size,
            forall|x: int| 0 <= x < size ==> u.reps()[x] == x,
            u.reps() == Seq::new(size as nat, |x: int| x as usize),
            u.ranks() == Seq::new(size as nat, |x: int| 0u8),
    {
        let mut parent: Vec<usize> = Vec::new();
        let mut rank: Vec<u8> = Vec::new();
        let mut i: usize = 0;
        while i < size
            invariant
                i <= size,
                parent.len() == i,
                rank.len() == i,
                forall|x: int| 0 <= x < i ==> parent@[x] == x && rank@[x] == 0,
            decreases size - i,
        {
            parent.push(i);
            rank.push(0);
            i += 1;
        }
        let ghost rep = Seq::new(size as nat, |x: int| x as usize);
        let u = UnionFind { parent, rank, rep: Ghost(rep), height: Ghost(Seq::new(size as nat, |x: int| 0nat)), top: Ghost(0) };
        assert(u.rank@ =~= Seq::new(size as nat, |x: int| 0u8));
        proof {
            assert forall|x: int| 0 <= x < size implies pow2(u.rank@[x] as nat) <= class_of(rep, x as usize).len() by {
                lemma2_to64();
                assert(class_of(rep, x as usize) =~= set![x]);
            }
        }
        u
    }

    /// The representative of `v`, shortening the walk to it.
    pub fn find(&mut self, v: usize) -> (r: usize)
        requires
            old(self).wf(),
            v < old(self).size(),
        ensures
            final(self).wf(),
            final(self).reps() == old(self).reps(),
            final(self).ranks() == old(self).ranks(),
            final(self).size() == old(self).size(),
            final(self).reps().len() == final(self).size(),
            r == old(self).reps()[v as int],
            forall|x: int| 0 <= x < old(self).size() ==> final(self).level(x) == old(self).level(x),
            forall|x: int|
                0 <= x < old(self).size() && old(self).level(x) < old(self).level(v as int) ==> final(self).parent_of(x)
                    == old(self).parent_of(x),
        decreases old(self).slack(v as int),
    {
        let p = self.parent[v];
        assert(self.parent@[v as int] == p);
        if p != v {
            assert(self.height@[p as int] > self.height@[v as int]);
            assert(self.parent@[p as int] < self.parent.len());
            assert(self.height@[p as int] <= self.top@);
            assert(self.slack(p as int) < self.slack(v as int));
            let ghost s1 = *self;
            let root = self.find(p);
            assert(self.parent@[p as int] < self.parent.len());
            let ghost s2 = *self;
            assert(self.parent@[v as int] == p) by {
                assert(s1.level(v as int) < s1.level(p as int));
                assert(s2.parent_of(v as int) == s1.parent_of(v as int));
            }
            self.parent.set(v, root);
            proof {
                let n = self.parent.len();
                let pp = self.parent@;
                let rep = self.rep@;
                let h = self.height@;
                assert(rep[v as int] == root);
                assert(pp[root as int] == root) by {
                    assert(s2.parent@[v as int] == p);
                    assert(s2.parent@[s2.rep@[v as int] as int] == s2.rep@[v as int]);
                }
                assert forall|x: int| 0 <= x < n implies {
                    &&& (#[trigger] pp[x]) < n
                    &&& rep[x] < n
                    &&& pp[rep[x] as int] == rep[x]
                    &&& rep[pp[x] as int] == rep[x]
                    &&& (pp[x] == x ==> rep[x] == x)
                    &&& (pp[x] != x ==> h[pp[x] as int] > h[x] && h[rep[x] as int] > h[x])
                    &&& h[x] <= self.top@
                } by {
                    assert(s2.parent@[x] < n);
                    if x != v {
                        assert(pp[x] == s2.parent@[x]);
                    }
                    if rep[x] as int != v {
                        assert(pp[rep[x] as int] == s2.parent@[rep[x] as int]);
                    }
                }
                assert(self.sized_except(-1)) by {
                    assert forall|x: int|
                        0 <= x < n && x != -1 && (#[trigger] self.parent@[x]) == x implies pow2(self.rank@[x] as nat)
                            <= class_of(self.rep@, x as usize).len() by {
                        if x == v {
                            assert(s2.parent@[v as int] == p);
                        } else {
                            assert(s2.parent@[x] == x);
                        }
                    }
                }
            }
        }
        self.parent[v]
    }

    /// Merges the sets of `a` and `b`.
    pub fn union(&mut self, a: usize, b: usize)
        requires
            old(self).wf(),
            a < old(self).size(),
            b < old(self).size(),
        ensures
            final(self).wf(),
            final(self).size() == old(self).size(),
            final(self).reps().len() == final(self).size(),
            final(self).reps() == union_reps(old(self).reps(), old(self).ranks(), a as int, b as int),
            final(self).ranks() == union_ranks(old(self).reps(), old(self).ranks(), a as int, b as int),
            forall|x: int, y: int|
                0 <= x < old(self).size() && 0 <= y < old(self).size() ==> ((final(self).reps()[x]
                    == final(self).reps()[y]) <==> ({
                    let r = old(self).reps();
                    ||| r[x] == r[y]
                    ||| (r[x] == r[a as int] && r[y] == r[b as int])
                    ||| (r[x] == r[b as int] && r[y] == r[a as int])
                })),
    {
        let ghost r0 = self.rep@;
        let ra = self.find(a);
        let rb = self.find(b);
        if ra == rb {
            return;
        }
        let ghost n = self.parent.len();
        assert(self.parent@[a as int] < n && self.parent@[b as int] < n);
        assert(ra < n && rb < n);
        assert(self.rank.len() == n);
        assert(self.parent@[ra as int] == ra && self.parent@[rb as int] == rb);
        proof {
            lemma_class_len(r0, ra);
            lemma_class_len(r0, rb);
            lemma_set_disjoint_lens(class_of(r0, ra), class_of(r0, rb));
            assert(class_of(r0, ra).disjoint(class_of(r0, rb)));
            lemma2_to64();
            lemma2_to64_rest();
        }
        if self.rank[ra] < self.rank[rb] {
            self.attach(ra, rb);
            proof {
                assert(class_of(r0, rb) + class_of(r0, ra) =~= class_of(r0, ra) + class_of(r0, rb));
                assert(pow2(self.rank@[rb as int] as nat) <= class_of(self.rep@, rb).len());
            }
        } else if self.rank[ra] > self.rank[rb] {
            self.attach(rb, ra);
            proof {
                assert(pow2(self.rank@[ra as int] as nat) <= class_of(self.rep@, ra).len());
            }
        } else {
            proof {
                let k = self.rank@[ra as int] as nat;
                lemma_pow2_unfold(k + 1);
                assert(pow2(k + 1) <= (class_of(r0, ra) + class_of(r0, rb)).len());
                assert((class_of(r0, ra) + class_of(r0, rb)).subset_of(set_int_range(0, n as int)));
                lemma_int_range(0, n as int);
                lemma_len_subset(class_of(r0, ra) + class_of(r0, rb), set_int_range(0, n as int));
                if k + 1 >= 64 {
                    if k + 1 > 64 {
                        lemma_pow2_strictly_increases(64, k + 1);
                    }
                }
                assert(k + 1 < 256);
            }
            self.attach(rb, ra);
            let k = self.rank[ra];
            self.rank.set(ra, k + 1);
            proof {
                assert(class_of(self.rep@, ra) == class_of(r0, ra) + class_of(r0, rb));
                assert(pow2(self.rank@[ra as int] as nat) <= class_of(self.rep@, ra).len());
                assert(self.shape());
            }
        }
        proof {
            let rep = self.rep@;
            assert(self.shape());
            let root = if self.parent@[ra as int] == ra { ra } else { rb };
            assert(self.parent@[root as int] == root);
            assert(pow2(self.rank@[root as int] as nat) <= class_of(self.rep@, root).len());
            assert forall|x: int|
                0 <= x < n && x != -1 && (#[trigger] self.parent@[x]) == x implies pow2(self.rank@[x] as nat)
                    <= class_of(self.rep@, x as usize).len() by {
                if x != root {
                }
            }
            assert forall|x: int, y: int|
                0 <= x < n && 0 <= y < n implies ((rep[x] == rep[y]) <==> ({
                    ||| r0[x] == r0[y]
                    ||| (r0[x] == r0[a as int] && r0[y] == r0[b as int])
                    ||| (r0[x] == r0[b as int] && r0[y] == r0[a as int])
                })) by {}
        }
    }

    /// Makes root `child` a child of root `root`.
    fn attach(&mut self, child: usize, root: usize)
        requires
            old(self).wf(),
            child < old(self).parent.len(),
            root < old(self).parent.len(),
            child != root,
            old(self).parent@[child as int] == child,
            old(self).parent@[root as int] == root,
        ensures
            final(self).shape(),
            final(self).sized_except(root as int),
            final(self).parent.len() == old(self).parent.len(),
            final(self).rank == old(self).rank,
            final(self).parent@[root as int] == root,
            forall|x: int|
                0 <= x < old(self).parent.len() ==> final(self).reps()[x] == if old(self).reps()[x] == child {
                    root
                } else {
                    old(self).reps()[x]
                },
            class_of(final(self).reps(), root) == class_of(old(self).reps(), root) + class_of(old(self).reps(), child),
    {
        let ghost r0 = self.rep@;
        let ghost h0 = self.height@;
        let ghost n = self.parent.len();
        self.parent.set(child, root);
        proof {
            let new_h = if h0[root as int] > h0[child as int] { h0[root as int] } else { h0[child as int] + 1 };
            self.height@ = h0.update(root as int, new_h);
            self.top@ = if self.top@ >= new_h { self.top@ } else { new_h };
            self.rep@ = Seq::new(n as nat, |x: int| if r0[x] == child { root } else { r0[x] });
            let rep = self.rep@;
            assert(class_of(rep, root) =~= class_of(r0, root) + class_of(r0, child));
            assert forall|x: int|
                0 <= x < n && x != root && (#[trigger] self.parent@[x]) == x implies pow2(self.rank@[x] as nat)
                    <= class_of(self.rep@, x as usize).len() by {
                assert(x != child);
                assert(class_of(rep, x as usize) =~= class_of(r0, x as usize));
            }
        }
    }

    /// Representatives are elements.
    pub proof fn lemma_reps_bounded(self, x: int)
        requires
            self.wf(),
            0 <= x < self.size(),
        ensures
            self.reps()[x] < self.size(),
    {
        assert(self.parent@[x] < self.parent.len());
    }
}

} // verus!
