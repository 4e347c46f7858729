//! Disjoint sets over the elements `0..n`, with union by rank and path
//! compression.
//!
//! The view of a structure is the sequence that maps each element to the
//! representative of its set. Two elements are in one set exactly when they
//! have the same representative.

use vstd::prelude::*;
use vstd::set_lib::*;

verus! {

/// The elements that hang below another element.
spec fn non_roots(parent: Seq<usize>) -> Set<int> {
    Set::new(|i: int| 0 <= i < parent.len() && parent[i] != i)
}

/// `parent` is a forest over `0..parent.len()` in which ranks grow strictly
/// towards the roots, and no rank exceeds the number of elements that are not
/// roots.
spec fn forest(parent: Seq<usize>, rank: Seq<usize>) -> bool {
    &&& parent.len() == rank.len()
    &&& forall|i: int| 0 <= i < parent.len() ==> (#[trigger] parent[i]) < parent.len()
    &&& forall|i: int|
        #![trigger parent[i]]
        0 <= i < parent.len() && parent[i] != i ==> rank[i] < rank[parent[i] as int]
    &&& forall|i: int| 0 <= i < parent.len() ==> (#[trigger] rank[i]) <= non_roots(parent).len()
}

/// The root that is reached from `i` by following `parent`.
spec fn root_of(parent: Seq<usize>, rank: Seq<usize>, i: int) -> int
    decreases usize::MAX - rank[i],
{
    if 0 <= i < parent.len() && parent.len() == rank.len() && parent[i] != i && parent[i]
        < parent.len() && rank[i] < rank[parent[i] as int] {
        root_of(parent, rank, parent[i] as int)
    } else {
        i
    }
}

proof fn lemma_root(parent: Seq<usize>, rank: Seq<usize>, i: int)
    requires
        forest(parent, rank),
        0 <= i < parent.len(),
    ensures
        0 <= root_of(parent, rank, i) < parent.len(),
        parent[root_of(parent, rank, i)] == root_of(parent, rank, i),
        rank[i] <= rank[root_of(parent, rank, i)],
        parent[i] != i ==> rank[i] < rank[root_of(parent, rank, i)],
        parent[i] == i ==> root_of(parent, rank, i) == i,
        parent[i] != i ==> root_of(parent, rank, i) == root_of(parent, rank, parent[i] as int),
    decreases usize::MAX - rank[i],
{
    if parent[i] != i {
        lemma_root(parent, rank, parent[i] as int);
    }
}

proof fn lemma_non_roots_bounded(parent: Seq<usize>)
    ensures
        non_roots(parent).finite(),
        non_roots(parent).len() <= parent.len(),
{
    lemma_int_range(0, parent.len() as int);
    lemma_len_subset(non_roots(parent), set_int_range(0, parent.len() as int));
}

/// Pointing a non-root `x` at an element `g` of its own tree that has a
/// larger rank keeps the forest.
proof fn lemma_redirect_forest(parent: Seq<usize>, rank: Seq<usize>, x: int, g: usize)
    requires
        forest(parent, rank),
        0 <= x < parent.len(),
        0 <= g < parent.len(),
        parent[x] != x,
        rank[x] < rank[g as int],
    ensures
        forest(parent.update(x, g), rank),
{
    let moved = parent.update(x, g);
    assert(non_roots(moved) =~= non_roots(parent));
}

/// Pointing a non-root `x` at an element `g` of its own tree that has a
/// larger rank changes no root.
proof fn lemma_redirect_root(parent: Seq<usize>, rank: Seq<usize>, x: int, g: usize, y: int)
    requires
        forest(parent, rank),
        0 <= x < parent.len(),
        0 <= g < parent.len(),
        parent[x] != x,
        rank[x] < rank[g as int],
        root_of(parent, rank, g as int) == root_of(parent, rank, x),
        0 <= y < parent.len(),
    ensures
        root_of(parent.update(x, g), rank, y) == root_of(parent, rank, y),
    decreases usize::MAX - rank[y],
{
    let moved = parent.update(x, g);
    if y == x {
        lemma_redirect_root(parent, rank, x, g, g as int);
        assert(moved[x] == g);
        assert(root_of(moved, rank, x) == root_of(moved, rank, g as int));
    } else if parent[y] != y {
        lemma_redirect_root(parent, rank, x, g, parent[y] as int);
        lemma_root(parent, rank, y);
    }
}

/// Hanging the root `b` below the root `a` keeps the forest, where the new
/// ranks `rank2` leave `b` below `a` and raise at most the rank of `a`, by one.
proof fn lemma_link_forest(
    parent: Seq<usize>,
    rank: Seq<usize>,
    rank2: Seq<usize>,
    a: usize,
    b: int,
)
    requires
        forest(parent, rank),
        0 <= a < parent.len(),
        0 <= b < parent.len(),
        a != b,
        parent[a as int] == a,
        parent[b] == b,
        rank2.len() == rank.len(),
        forall|i: int| 0 <= i < rank.len() && i != a ==> rank2[i] == rank[i],
        rank[a as int] <= rank2[a as int] <= rank[a as int] + 1,
        rank2[b] < rank2[a as int],
    ensures
        forest(parent.update(b, a), rank2),
{
    let moved = parent.update(b, a);
    lemma_non_roots_bounded(parent);
    assert(non_roots(moved) =~= non_roots(parent).insert(b));
    assert(!non_roots(parent).contains(b));
    assert(non_roots(moved).len() == non_roots(parent).len() + 1);
    assert forall|i: int| 0 <= i < moved.len() && #[trigger] moved[i] != i implies rank2[i]
        < rank2[moved[i] as int] by {
        if i != b {
            assert(parent[i] != i);
            assert(i != a);
            assert(rank[i] < rank[parent[i] as int]);
        }
    }
    assert forall|i: int| 0 <= i < moved.len() implies (#[trigger] rank2[i]) <= non_roots(moved).len() by {
        assert(rank[i] <= non_roots(parent).len());
    }
}

/// Hanging the root `b` below the root `a` moves the elements of `b`'s tree to
/// `a` and leaves every other root as it was.
proof fn lemma_link_root(
    parent: Seq<usize>,
    rank: Seq<usize>,
    rank2: Seq<usize>,
    a: usize,
    b: int,
    y: int,
)
    requires
        forest(parent, rank),
        0 <= a < parent.len(),
        0 <= b < parent.len(),
        a != b,
        parent[a as int] == a,
        parent[b] == b,
        rank2.len() == rank.len(),
        forall|i: int| 0 <= i < rank.len() && i != a ==> rank2[i] == rank[i],
        rank[a as int] <= rank2[a as int] <= rank[a as int] + 1,
        rank2[b] < rank2[a as int],
        0 <= y < parent.len(),
    ensures
        root_of(parent.update(b, a), rank2, y) == (if root_of(parent, rank, y) == b {
            a as int
        } else {
            root_of(parent, rank, y)
        }),
    decreases usize::MAX - rank[y],
{
    let moved = parent.update(b, a);
    if y == b {
        assert(moved[b] == a);
        assert(root_of(moved, rank2, b) == root_of(moved, rank2, a as int));
        assert(root_of(moved, rank2, a as int) == a);
    } else if parent[y] != y {
        assert(y != a);
        lemma_link_root(parent, rank, rank2, a, b, parent[y] as int);
        assert(rank2[y] < rank2[parent[y] as int]);
        assert(root_of(moved, rank2, y) == root_of(moved, rank2, parent[y] as int));
    }
}

/// A partition of `0..n` into disjoint sets.
pub struct DisjointSets {
    parent: Vec<usize>,
    rank: Vec<usize>,
}

impl View for DisjointSets {
    type V = Seq<int>;

    /// The representative of each element's set.
    closed spec fn view(&self) -> Seq<int> {
        Seq::new(self.parent@.len(), |i: int| root_of(self.parent@, self.rank@, i))
    }
}

impl DisjointSets {
    /// The structure's invariant.
    pub closed spec fn wf(&self) -> bool {
        forest(self.parent@, self.rank@)
    }

    /// `a` and `b` are elements of one set.
    pub open spec fn same(&self, a: int, b: int) -> bool {
        self@[a] == self@[b]
    }

    /// Every representative is an element, and stands for itself.
    pub proof fn lemma_representatives(&self)
        requires
            self.wf(),
        ensures
            forall|i: int|
                0 <= i < self@.len() ==> 0 <= (#[trigger] self@[i]) < self@.len() && self@[self@[i]]
                    == self@[i],
    {
        assert forall|i: int| 0 <= i < self@.len() implies 0 <= (#[trigger] self@[i])
            < self@.len() && self@[self@[i]] == self@[i] by {
            lemma_root(self.parent@, self.rank@, i);
            lemma_root(self.parent@, self.rank@, self@[i]);
        }
    }

    /// `n` sets of one element each.
    pub fn new(n: usize) -> (s: DisjointSets)
        ensures
            s.wf(),
            s@.len() == n,
            forall|i: int| 0 <= i < n ==> s@[i] == i,
    {
        let mut parent: Vec<usize> = Vec::new();
        let mut rank: Vec<usize> = Vec::new();
        let mut i: usize = 0;
        while i < n
            invariant
                i <= n,
                parent@.len() == i,
                rank@.len() == i,
                forall|j: int| 0 <= j < i ==> parent@[j] == j,
                forall|j: int| 0 <= j < i ==> rank@[j] == 0,
            decreases n - i,
        {
            parent.push(i);
            rank.push(0);
            i += 1;
        }
        DisjointSets { parent, rank }
    }

    /// The number of elements.
    pub fn len(&self) -> (n: usize)
        ensures
            n == self@.len(),
    {
        self.parent.len()
    }

    /// The representative of `x`'s set. The paths from `x` to it are
    /// shortened on the way; the sets stay as they are.
    pub fn find(&mut self, x: usize) -> (r: usize)
        requires
            old(self).wf(),
            x < old(self)@.len(),
        ensures
            final(self).wf(),
            final(self)@ == old(self)@,
            r == old(self)@[x as int],
    {
        let mut root: usize = x;
        proof {
            lemma_root(self.parent@, self.rank@, x as int);
        }
        while self.parent[root] != root
            invariant
                self.wf(),
                self.parent@ == old(self).parent@,
                self.rank@ == old(self).rank@,
                root < self.parent@.len(),
                root_of(self.parent@, self.rank@, root as int) == root_of(
                    self.parent@,
                    self.rank@,
                    x as int,
                ),
            decreases usize::MAX - self.rank@[root as int],
        {
            proof {
                lemma_root(self.parent@, self.rank@, root as int);
            }
            root = self.parent[root];
        }
        proof {
            lemma_root(self.parent@, self.rank@, root as int);
        }
        let mut cur: usize = x;
        while cur != root
            invariant
                self.wf(),
                self.parent@.len() == old(self).parent@.len(),
                self.rank@ == old(self).rank@,
                self@ == old(self)@,
                cur < self.parent@.len(),
                root < self.parent@.len(),
                self.parent@[root as int] == root,
                root_of(self.parent@, self.rank@, cur as int) == root,
                root == old(self)@[x as int],
            decreases usize::MAX - self.rank@[cur as int],
        {
            let next: usize = self.parent[cur];
            proof {
                let p = self.parent@;
                let r = self.rank@;
                lemma_root(p, r, cur as int);
                lemma_root(p, r, root as int);
                lemma_redirect_forest(p, r, cur as int, root);
                assert forall|y: int| 0 <= y < p.len() implies root_of(
                    p.update(cur as int, root),
                    r,
                    y,
                ) == root_of(p, r, y) by {
                    lemma_redirect_root(p, r, cur as int, root, y);
                }
            }
            self.parent.set(cur, root);
            assert(self@ =~= old(self)@);
            cur = next;
        }
        root
    }

    /// Merges the sets of `a` and `b`. Returns whether they were two sets
    /// before the call. The merged set is represented by one of the two
    /// former representatives; every other set keeps its own.
    pub fn union(&mut self, a: usize, b: usize) -> (merged: bool)
        requires
            old(self).wf(),
            a < old(self)@.len(),
            b < old(self)@.len(),
        ensures
            final(self).wf(),
            final(self)@.len() == old(self)@.len(),
            merged == !old(self).same(a as int, b as int),
            final(self)@[a as int] == old(self)@[a as int] || final(self)@[a as int] == old(
                self,
            )@[b as int],
            forall|i: int|
                0 <= i < old(self)@.len() ==> (#[trigger] final(self)@[i]) == (if old(self).same(
                    i,
                    a as int,
                ) || old(self).same(i, b as int) {
                    final(self)@[a as int]
                } else {
                    old(self)@[i]
                }),
    {
        let ra: usize = self.find(a);
        let rb: usize = self.find(b);
        if ra == rb {
            return false;
        }
        let ghost p = self.parent@;
        let ghost r = self.rank@;
        proof {
            lemma_root(p, r, a as int);
            lemma_root(p, r, b as int);
        }
        let rank_a: usize = self.rank[ra];
        let rank_b: usize = self.rank[rb];
        if rank_a < rank_b {
            proof {
                lemma_link_forest(p, r, r, rb, ra as int);
                assert forall|y: int| 0 <= y < p.len() implies root_of(
                    p.update(ra as int, rb),
                    r,
                    y,
                ) == (if root_of(p, r, y) == ra {
                    rb as int
                } else {
                    root_of(p, r, y)
                }) by {
                    lemma_link_root(p, r, r, rb, ra as int, y);
                }
            }
            self.parent.set(ra, rb);
        } else if rank_b < rank_a {
            proof {
                lemma_link_forest(p, r, r, ra, rb as int);
                assert forall|y: int| 0 <= y < p.len() implies root_of(
                    p.update(rb as int, ra),
                    r,
                    y,
                ) == (if root_of(p, r, y) == rb {
                    ra as int
                } else {
                    root_of(p, r, y)
                }) by {
                    lemma_link_root(p, r, r, ra, rb as int, y);
                }
            }
            self.parent.set(rb, ra);
        } else {
            proof {
                lemma_non_roots_bounded(p);
                lemma_non_roots_bounded(p.update(rb as int, ra));
                assert(non_roots(p.update(rb as int, ra)) =~= non_roots(p).insert(rb as int));
                assert(!non_roots(p).contains(rb as int));
                assert(non_roots(p).insert(rb as int).len() == non_roots(p).len() + 1);
                assert(r[ra as int] <= non_roots(p).len());
                assert(p.len() == self.parent.len());
            }
            let raised: usize = rank_a + 1;
            proof {
                let r2 = r.update(ra as int, raised);
                lemma_link_forest(p, r, r2, ra, rb as int);
                assert forall|y: int| 0 <= y < p.len() implies root_of(
                    p.update(rb as int, ra),
                    r2,
                    y,
                ) == (if root_of(p, r, y) == rb {
                    ra as int
                } else {
                    root_of(p, r, y)
                }) by {
                    lemma_link_root(p, r, r2, ra, rb as int, y);
                }
            }
            self.parent.set(rb, ra);
            self.rank.set(ra, raised);
        }
        true
    }

    /// Whether `a` and `b` are elements of one set.
    pub fn same_set(&mut self, a: usize, b: usize) -> (r: bool)
        requires
            old(self).wf(),
            a < old(self)@.len(),
            b < old(self)@.len(),
        ensures
            final(self).wf(),
            final(self)@ == old(self)@,
            r == old(self).same(a as int, b as int),
    {
        let ra: usize = self.find(a);
        let rb: usize = self.find(b);
        ra == rb
    }
}

} // verus!
