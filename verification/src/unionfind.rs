//! Disjoint sets over `0..n`, with path halving and union by size.

use vstd::prelude::*;

verus! {

/// A partition of `0..n`.
pub struct UnionFind {
    parent: Vec<usize>,
    size: Vec<usize>,
    /// The representative of each element's set.
    root: Ghost<Seq<int>>,
    /// A number that grows along parent links.
    rank: Ghost<Seq<nat>>,
}

/// How many of the first `k` elements have representative `r`.
pub open spec fn class_size(roots: Seq<int>, r: int, k: int) -> nat
    decreases k,
{
    if k <= 0 {
        0
    } else {
        class_size(roots, r, k - 1) + if roots[k - 1] == r {
            1nat
        } else {
            0nat
        }
    }
}

/// The representatives after the set of `small` joined that of `big`.
pub open spec fn merged(roots: Seq<int>, big: int, small: int) -> Seq<int> {
    Seq::new(
        roots.len(),
        |i: int|
            if roots[i] == small {
                big
            } else {
                roots[i]
            },
    )
}

proof fn lemma_merged_sizes(roots: Seq<int>, big: int, small: int, r: int, k: int)
    requires
        0 <= k <= roots.len(),
        big != small,
        r != small,
    ensures
        class_size(merged(roots, big, small), r, k) == class_size(roots, r, k) + if r == big {
            class_size(roots, small, k)
        } else {
            0
        },
    decreases k,
{
    if k > 0 {
        lemma_merged_sizes(roots, big, small, r, k - 1);
    }
}

proof fn lemma_two_classes_fit(roots: Seq<int>, a: int, b: int, k: int)
    requires
        a != b,
    ensures
        class_size(roots, a, k) + class_size(roots, b, k) <= if k < 0 {
            0
        } else {
            k
        },
    decreases k,
{
    if k > 0 {
        lemma_two_classes_fit(roots, a, b, k - 1);
    }
}

proof fn lemma_identity_sizes(n: nat, r: int, k: int)
    requires
        0 <= k <= n,
    ensures
        class_size(Seq::new(n, |i: int| i), r, k) == if 0 <= r < k {
            1nat
        } else {
            0nat
        },
    decreases k,
{
    if k > 0 {
        lemma_identity_sizes(n, r, k - 1);
    }
}

impl UnionFind {
    /// The number of elements.
    pub closed spec fn len(&self) -> nat {
        self.parent@.len()
    }

    /// The representative of each element's set.
    pub closed spec fn roots(&self) -> Seq<int> {
        self.root@
    }

    /// `a` and `b` are in one set.
    pub open spec fn same(&self, a: int, b: int) -> bool {
        self.roots()[a] == self.roots()[b]
    }

    /// The forest is one of the partition given by `roots`.
    pub closed spec fn wf(&self) -> bool {
        let n = self.parent@.len();
        &&& self.size@.len() == n
        &&& self.root@.len() == n
        &&& self.rank@.len() == n
        &&& forall|i: int| 0 <= i < n ==> 0 <= #[trigger] self.parent@[i] < n
        &&& forall|i: int| 0 <= i < n ==> 0 <= #[trigger] self.root@[i] < n
        &&& forall|i: int| 0 <= i < n ==> self.root@[#[trigger] self.root@[i]] == self.root@[i]
        &&& forall|i: int|
            0 <= i < n ==> self.root@[#[trigger] self.parent@[i] as int] == self.root@[i]
        &&& forall|i: int|
            0 <= i < n ==> (#[trigger] self.parent@[i] == i <==> self.root@[i] == i)
        &&& forall|i: int|
            0 <= i < n && #[trigger] self.parent@[i] != i ==> self.rank@[i]
                < self.rank@[self.parent@[i] as int]
        &&& forall|i: int| 0 <= i < n ==> #[trigger] self.rank@[i] <= self.rank@[self.root@[i]]
        &&& forall|r: int|
            0 <= r < n && #[trigger] self.root@[r] == r ==> self.size@[r] == class_size(
                self.root@,
                r,
                n as int,
            )
    }

    /// What every user of a well-formed partition may rely on.
    pub proof fn lemma_roots(&self)
        requires
            self.wf(),
        ensures
            self.roots().len() == self.len(),
            forall|i: int|
                0 <= i < self.len() ==> 0 <= #[trigger] self.roots()[i] < self.len()
                    && self.roots()[self.roots()[i]] == self.roots()[i],
    {
    }

    /// The partition into single elements.
    pub fn new(n: usize) -> (uf: UnionFind)
        ensures
            uf.wf(),
            uf.len() == n,
            uf.roots() == Seq::new(n as nat, |i: int| i),
    {
        let mut parent: Vec<usize> = Vec::new();
        let mut size: Vec<usize> = Vec::new();
        let mut i: usize = 0;
        while i < n
            invariant
                i <= n,
                parent@.len() == i,
                size@.len() == i,
                forall|k: int| 0 <= k < i ==> #[trigger] parent@[k] == k,
                forall|k: int| 0 <= k < i ==> #[trigger] size@[k] == 1,
            decreases n - i,
        {
            parent.push(i);
            size.push(1);
            i = i + 1;
        }
        let uf = UnionFind {
            parent,
            size,
            root: Ghost(Seq::new(n as nat, |i: int| i)),
            rank: Ghost(Seq::new(n as nat, |i: int| 0nat)),
        };
        proof {
            assert forall|r: int| 0 <= r < n && #[trigger] uf.root@[r] == r implies uf.size@[r]
                == class_size(uf.root@, r, n as int) by {
                lemma_identity_sizes(n as nat, r, n as int);
            }
        }
        uf
    }

    /// The representative of `x`. Shortens the path to it, which leaves the
    /// partition as it is.
    pub fn find(&mut self, x: usize) -> (r: usize)
        requires
            old(self).wf(),
            x < old(self).len(),
        ensures
            final(self).wf(),
            final(self).len() == old(self).len(),
            final(self).roots() == old(self).roots(),
            r == old(self).roots()[x as int],
    {
        let mut x: usize = x;
        let ghost x0 = x;
        while self.parent[x] != x
            invariant
                self.wf(),
                x < self.parent@.len(),
                x0 < self.parent@.len(),
                self.parent@.len() == old(self).parent@.len(),
                self.root@ == old(self).root@,
                self.root@[x as int] == self.root@[x0 as int],
            decreases self.rank@[self.root@[x as int]] - self.rank@[x as int],
        {
            let p: usize = self.parent[x];
            let g: usize = self.parent[p];
            assert(self.rank@[x as int] < self.rank@[p as int]);
            assert(self.root@[g as int] == self.root@[x as int]);
            self.parent.set(x, g);
            x = g;
        }
        x
    }

    /// Joins the sets of `a` and `b`. The representative of the larger set
    /// becomes that of both; that of `a`, if they are equally large.
    pub fn union(&mut self, a: usize, b: usize)
        requires
            old(self).wf(),
            a < old(self).len(),
            b < old(self).len(),
        ensures
            final(self).wf(),
            final(self).len() == old(self).len(),
            ({
                let roots = old(self).roots();
                let (ra, rb) = (roots[a as int], roots[b as int]);
                let n = old(self).len() as int;
                if ra == rb {
                    final(self).roots() == roots
                } else if class_size(roots, ra, n) >= class_size(roots, rb, n) {
                    final(self).roots() == merged(roots, ra, rb)
                } else {
                    final(self).roots() == merged(roots, rb, ra)
                }
            }),
            forall|i: int, j: int|
                #![trigger final(self).same(i, j)]
                0 <= i < old(self).len() && 0 <= j < old(self).len() ==> (final(self).same(i, j)
                    <==> old(self).same(i, j) || (old(self).same(i, a as int) && old(self).same(
                    b as int,
                    j,
                )) || (old(self).same(i, b as int) && old(self).same(a as int, j))),
    {
        let ra: usize = self.find(a);
        let rb: usize = self.find(b);
        if ra == rb {
            return;
        }
        let (big, small): (usize, usize) = if self.size[ra] >= self.size[rb] {
            (ra, rb)
        } else {
            (rb, ra)
        };
        let len: usize = self.parent.len();
        let ghost n = len as int;
        let ghost roots = self.root@;
        let ghost ranks = self.rank@;
        proof {
            assert(roots[ra as int] == ra && roots[rb as int] == rb);
            lemma_two_classes_fit(roots, big as int, small as int, n);
        }
        let both: usize = self.size[big] + self.size[small];
        self.parent.set(small, big);
        self.size.set(big, both);
        proof {
            self.root@ = merged(roots, big as int, small as int);
            let top: nat = if ranks[big as int] > ranks[small as int] {
                ranks[big as int]
            } else {
                ranks[small as int] + 1
            };
            self.rank@ = ranks.update(big as int, top);
            assert forall|r: int| 0 <= r < n && #[trigger] self.root@[r] == r implies self.size@[r]
                == class_size(self.root@, r, n) by {
                lemma_merged_sizes(roots, big as int, small as int, r, n);
                assert(roots[r] == r);
            }
        }
    }
}

} // verus!
