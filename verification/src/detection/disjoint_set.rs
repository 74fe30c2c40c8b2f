//! Union-find over `0 .. n` with union by size and path compression.

use vstd::prelude::*;

verus! {

/// A partition of `0 .. n` into disjoint sets, each with a representative.
pub struct DisjointSet {
    parent: Vec<usize>,
    size: Vec<usize>,
    /// The representative of each element.
    roots: Ghost<Seq<int>>,
    /// For each element, a bound on the number of steps to its root.
    depth: Ghost<Seq<nat>>,
}

/// True if `a` and `b` are in one set once the sets of `x` and `y` are
/// merged: they were in one set before, or one was with `x` and the other
/// with `y`.
pub open spec fn merged_sets(set: DisjointSet, x: int, y: int, a: int, b: int) -> bool {
    ||| set.same_set(a, b)
    ||| set.same_set(a, x) && set.same_set(b, y)
    ||| set.same_set(a, y) && set.same_set(b, x)
}

impl DisjointSet {
    /// The number of elements.
    pub closed spec fn len(&self) -> nat {
        self.parent@.len()
    }

    /// The representative of the set that holds `i`.
    pub closed spec fn rep(&self, i: int) -> int {
        self.roots@[i]
    }

    /// True if `a` and `b` are in one set.
    pub open spec fn same_set(&self, a: int, b: int) -> bool {
        self.rep(a) == self.rep(b)
    }

    /// The structure is a forest whose trees are the sets: every parent link
    /// stays inside its set and leads nearer to the root, and the root of a
    /// tree is the representative of its set.
    pub closed spec fn wf(&self) -> bool {
        let n = self.parent@.len();
        &&& self.size@.len() == n
        &&& self.roots@.len() == n
        &&& self.depth@.len() == n
        &&& forall|i: int| 0 <= i < n ==> (#[trigger] self.parent@[i]) < n
        &&& forall|i: int|
            0 <= i < n ==> 0 <= (#[trigger] self.roots@[i]) < n && self.parent@[self.roots@[i]]
                == self.roots@[i]
        &&& forall|i: int| 0 <= i < n ==> self.roots@[(#[trigger] self.parent@[i]) as int] == self.roots@[i]
        &&& forall|i: int| 0 <= i < n && (#[trigger] self.parent@[i]) == i ==> self.roots@[i] == i && self.depth@[i] == 0
        &&& forall|i: int|
            0 <= i < n && (#[trigger] self.parent@[i]) != i ==> self.depth@[self.parent@[i] as int]
                < self.depth@[i]
    }

    /// Every representative is an element and represents itself.
    pub proof fn lemma_rep(&self, i: int)
        requires
            self.wf(),
            0 <= i < self.len(),
        ensures
            0 <= self.rep(i) < self.len(),
            self.rep(self.rep(i)) == self.rep(i),
    {
        let r = self.roots@[i];
        assert(self.parent@[r] == r);
    }

    /// Creates the partition of `0 .. size` into singletons.
    pub fn new(size: usize) -> (set: DisjointSet)
        ensures
            set.wf(),
            set.len() == size,
            forall|i: int| 0 <= i < size ==> set.rep(i) == i,
    {
        let mut parent: Vec<usize> = Vec::new();
        let mut sizes: Vec<usize> = Vec::new();
        let mut i: usize = 0;
        while i < size
            invariant
                i <= size,
                parent@.len() == i,
                sizes@.len() == i,
                forall|j: int| 0 <= j < i ==> parent@[j] == j,
            decreases size - i,
        {
            parent.push(i);
            sizes.push(1);
            i += 1;
        }
        DisjointSet {
            parent,
            size: sizes,
            roots: Ghost(Seq::new(size as nat, |j: int| j)),
            depth: Ghost(Seq::new(size as nat, |j: int| 0nat)),
        }
    }

    /// Returns the representative of the set that holds `x`, and shortens
    /// the path from `x` to it. The partition does not change.
    pub fn find(&mut self, x: usize) -> (root: usize)
        requires
            old(self).wf(),
            x < old(self).len(),
        ensures
            final(self).wf(),
            final(self).len() == old(self).len(),
            root == old(self).rep(x as int),
            forall|i: int| 0 <= i < old(self).len() ==> final(self).rep(i) == old(self).rep(i),
    {
        let mut root = x;
        while self.parent[root] != root
            invariant
                self.wf(),
                *self == *old(self),
                root < self.parent@.len(),
                self.roots@[root as int] == self.roots@[x as int],
            decreases self.depth@[root as int],
        {
            root = self.parent[root];
        }
        let mut cur = x;
        while cur != root
            invariant
                self.wf(),
                self.parent@.len() == old(self).parent@.len(),
                self.roots@ == old(self).roots@,
                cur < self.parent@.len(),
                root < self.parent@.len(),
                self.parent@[root as int] == root,
                self.roots@[cur as int] == root,
            decreases self.depth@[cur as int],
        {
            let next = self.parent[cur];
            self.parent[cur] = root;
            cur = next;
        }
        root
    }

    /// Merges the set that holds `x` with the set that holds `y`, hanging
    /// the smaller tree below the root of the larger.
    pub fn union(&mut self, x: usize, y: usize)
        requires
            old(self).wf(),
            x < old(self).len(),
            y < old(self).len(),
        ensures
            final(self).wf(),
            final(self).len() == old(self).len(),
            forall|a: int, b: int|
                0 <= a < old(self).len() && 0 <= b < old(self).len() ==> (#[trigger] final(self).same_set(a, b)
                    <==> merged_sets(*old(self), x as int, y as int, a, b)),
    {
        let root_x = self.find(x);
        let root_y = self.find(y);
        if root_x == root_y {
            return ;
        }
        let size_x = self.size[root_x];
        let size_y = self.size[root_y];
        let (child, top) = if size_x < size_y {
            (root_x, root_y)
        } else {
            (root_y, root_x)
        };
        let merged = if size_x <= usize::MAX - size_y {
            size_x + size_y
        } else {
            usize::MAX
        };
        let ghost before = *self;
        proof {
            before.lemma_rep(x as int);
            before.lemma_rep(y as int);
        }
        self.parent[child] = top;
        self.size[top] = merged;
        proof {
            let n = before.parent@.len();
            self.roots = Ghost(
                Seq::new(
                    n,
                    |i: int|
                        if before.roots@[i] == child as int {
                            top as int
                        } else {
                            before.roots@[i]
                        },
                ),
            );
            self.depth = Ghost(
                Seq::new(
                    n,
                    |i: int|
                        if before.roots@[i] == child as int {
                            before.depth@[i] + 1
                        } else {
                            before.depth@[i]
                        },
                ),
            );
            assert(before.roots@[child as int] == child);
            assert(before.roots@[top as int] == top);
            assert forall|i: int| 0 <= i < n implies self.roots@[(#[trigger] self.parent@[i]) as int]
                == self.roots@[i] by {
                if i != child {
                    assert(self.parent@[i] == before.parent@[i]);
                    assert(before.roots@[before.parent@[i] as int] == before.roots@[i]);
                }
            }
            assert forall|i: int|
                0 <= i < n && (#[trigger] self.parent@[i]) != i implies self.depth@[self.parent@[i] as int]
                < self.depth@[i] by {
                if i != child {
                    assert(self.parent@[i] == before.parent@[i]);
                    assert(before.roots@[before.parent@[i] as int] == before.roots@[i]);
                }
            }
            assert forall|i: int|
                0 <= i < n implies 0 <= (#[trigger] self.roots@[i]) < n && self.parent@[self.roots@[i]]
                == self.roots@[i] by {
                assert(0 <= before.roots@[i] < n);
            }
            assert forall|i: int| 0 <= i < n && (#[trigger] self.parent@[i]) == i implies self.roots@[i]
                == i && self.depth@[i] == 0 by {
                assert(before.parent@[i] == i);
            }
        }
    }

    /// Returns the number of elements.
    pub fn size(&self) -> (n: usize)
        requires
            self.wf(),
        ensures
            n == self.len(),
    {
        self.parent.len()
    }
}

} // verus!
