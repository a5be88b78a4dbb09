//! Disjoint-set (union-find) forest with path compression and
//! union-by-size.

use vstd::prelude::*;
use vstd::set_lib::{set_int_range, lemma_int_range, lemma_len_subset, lemma_set_union_finite_iff};

verus! {

/// `x` and `y` belong to the same set under the root assignment `r`.
pub open spec fn connected(r: Seq<int>, x: int, y: int) -> bool {
    r[x] == r[y]
}

/// The set of elements connected to `x` under the root assignment `r`.
pub open spec fn class_of(r: Seq<int>, x: int) -> Set<int> {
    Set::new(|j: int| 0 <= j < r.len() && r[j] == r[x])
}

/// A class is a finite subset of the elements, and it contains `x` itself.
pub proof fn lemma_class_bounds(r: Seq<int>, x: int)
    ensures
        class_of(r, x).finite(),
        class_of(r, x).len() <= r.len(),
        0 <= x < r.len() ==> class_of(r, x).len() >= 1,
{
    lemma_int_range(0, r.len() as int);
    assert(class_of(r, x).subset_of(set_int_range(0, r.len() as int)));
    lemma_len_subset(class_of(r, x), set_int_range(0, r.len() as int));
    if 0 <= x < r.len() {
        assert(class_of(r, x).contains(x));
        assert(class_of(r, x).remove(x).len() == class_of(r, x).len() - 1);
    }
}

/// The size of a union of two disjoint finite sets is the sum of the sizes.
proof fn lemma_len_disjoint_union(s1: Set<int>, s2: Set<int>)
    requires
        s1.finite(),
        s2.finite(),
        s1.disjoint(s2),
    ensures
        s1.union(s2).finite(),
        s1.union(s2).len() == s1.len() + s2.len(),
    decreases s1.len(),
{
    lemma_set_union_finite_iff(s1, s2);
    if s1.is_empty() {
        assert(s1.union(s2) =~= s2);
    } else {
        let a = s1.choose();
        assert(s1.union(s2).remove(a) =~= s1.remove(a).union(s2));
        lemma_len_disjoint_union(s1.remove(a), s2);
        assert(s1.union(s2).contains(a));
        assert(s1.union(s2).remove(a).len() == s1.union(s2).len() - 1);
    }
}

/// The root assignment after merging the set of `y` into the set of `x` or
/// the other way round, decided by size with ties won by `y`'s root.
pub open spec fn merged(r: Seq<int>, x: int, y: int) -> Seq<int> {
    if r[x] == r[y] {
        r
    } else {
        let w = if class_of(r, x).len() > class_of(r, y).len() {
            r[x]
        } else {
            r[y]
        };
        let l = if class_of(r, x).len() > class_of(r, y).len() {
            r[y]
        } else {
            r[x]
        };
        Seq::new(
            r.len(),
            |j: int|
                if r[j] == l {
                    w
                } else {
                    r[j]
                },
        )
    }
}

/// Connectivity is an equivalence relation: it is reflexive, symmetric and
/// transitive at every state of the structure.
pub proof fn lemma_connected_equivalence(r: Seq<int>, x: int, y: int, z: int)
    ensures
        connected(r, x, x),
        connected(r, x, y) ==> connected(r, y, x),
        connected(r, x, y) && connected(r, y, z) ==> connected(r, x, z),
{
}

/// Disjoint-set data structure over elements `0 .. n`.
///
/// `data[i]` holds the parent of `i`, or, when `i` is a root, the negated
/// size of `i`'s set. Lookups compress the paths they traverse; `unite`
/// attaches the smaller tree under the larger one.
pub struct UnionFind {
    data: Vec<i32>,
    roots: Ghost<Seq<int>>,
    depths: Ghost<Seq<int>>,
}

impl View for UnionFind {
    type V = Seq<int>;

    /// The current root of every element.
    closed spec fn view(&self) -> Seq<int> {
        self.roots@
    }
}

impl UnionFind {
    /// Internal consistency: parent pointers strictly descend in depth and
    /// agree with the ghost root assignment; every root stores the negated
    /// size of its class.
    pub closed spec fn wf(self) -> bool {
        let n = self.data.len() as int;
        let d = self.data@;
        let r = self.roots@;
        let dep = self.depths@;
        &&& r.len() == n
        &&& dep.len() == n
        &&& n <= i32::MAX
        &&& forall|i: int| 0 <= i < n ==> 0 <= #[trigger] r[i] < n
        &&& forall|i: int| 0 <= i < n ==> #[trigger] dep[i] >= 0
        &&& forall|i: int| 0 <= i < n ==> d[#[trigger] r[i]] < 0
        &&& forall|i: int| 0 <= i < n ==> dep[#[trigger] r[i]] <= dep[i]
        &&& forall|i: int| 0 <= i < n ==> -n <= #[trigger] d[i] < n
        &&& forall|i: int|
            0 <= i < n && #[trigger] d[i] >= 0 ==> r[d[i] as int] == r[i] && dep[d[i] as int] < dep[i]
        &&& forall|i: int|
            0 <= i < n && #[trigger] d[i] < 0 ==> r[i] == i && -d[i] == class_of(r, i).len()
    }

    /// Creates `n` disjoint singleton sets, one for each of `0 .. n`.
    pub fn new(n: usize) -> (r: UnionFind)
        requires
            n <= i32::MAX,
        ensures
            r.wf(),
            r@.len() == n,
            forall|i: int| 0 <= i < n ==> r@[i] == i,
    {
        let mut data: Vec<i32> = Vec::new();
        while data.len() < n
            invariant
                data.len() <= n,
                forall|j: int| 0 <= j < data.len() ==> data@[j] == -1,
            decreases n - data.len(),
        {
            data.push(-1);
        }
        let ghost roots: Seq<int> = Seq::new(n as nat, |i: int| i);
        let ghost depths: Seq<int> = Seq::new(n as nat, |i: int| 0);
        proof {
            assert forall|i: int| 0 <= i < n && data@[i] < 0 implies roots[i] == i && -data@[i]
                == class_of(roots, i).len() by {
                lemma_class_bounds(roots, i);
                assert(class_of(roots, i) =~= Set::empty().insert(i));
                assert(Set::<int>::empty().insert(i).len() == 1);
            }
        }
        UnionFind { data, roots: Ghost(roots), depths: Ghost(depths) }
    }

    /// Returns the canonical representative of `x`'s set, compressing the
    /// path from `x` to the root. The partition itself is unchanged.
    pub fn root(&mut self, x: usize) -> (r: usize)
        requires
            old(self).wf(),
            x < old(self)@.len(),
        ensures
            final(self).wf(),
            final(self)@ == old(self)@,
            r as int == old(self)@[x as int],
    {
        let ghost rts = self.roots@;
        let ghost dep = self.depths@;
        let mut r: usize = x;
        while self.data[r] >= 0
            invariant
                self.wf(),
                self.roots@ == rts,
                self.depths@ == dep,
                x < self@.len(),
                r < self@.len(),
                rts[r as int] == rts[x as int],
                r == x || dep[r as int] < dep[x as int],
            decreases dep[r as int],
        {
            r = self.data[r] as usize;
        }
        let root_idx: usize = r;
        let mut cur: usize = x;
        while self.data[cur] >= 0
            invariant
                self.wf(),
                self.roots@ == rts,
                self.depths@ == dep,
                self.data.len() == rts.len(),
                cur < self@.len(),
                root_idx < self@.len(),
                rts[cur as int] == root_idx,
                self.data@[root_idx as int] < 0,
            decreases dep[cur as int],
        {
            let next: usize = self.data[cur] as usize;
            proof {
                assert(rts[next as int] == root_idx);
                assert(dep[root_idx as int] <= dep[next as int]);
                assert(dep[next as int] < dep[cur as int]);
            }
            self.data.set(cur, root_idx as i32);
            proof {
                let d = self.data@;
                let n = d.len() as int;
                assert forall|i: int| 0 <= i < n && #[trigger] d[i] >= 0 implies rts[d[i] as int]
                    == rts[i] && dep[d[i] as int] < dep[i] by {}
                assert forall|i: int| 0 <= i < n && #[trigger] d[i] < 0 implies rts[i] == i
                    && -d[i] == class_of(rts, i).len() by {}
            }
            cur = next;
        }
        proof {
            assert(rts[root_idx as int] == root_idx);
        }
        root_idx
    }

    /// Merges the set containing `x` and the set containing `y`; the root
    /// of the smaller set is attached under the root of the larger one,
    /// ties attaching `x`'s root under `y`'s. Returns whether the two were
    /// previously in different sets.
    pub fn unite(&mut self, x: usize, y: usize) -> (r: bool)
        requires
            old(self).wf(),
            x < old(self)@.len(),
            y < old(self)@.len(),
        ensures
            final(self).wf(),
            final(self)@ == merged(old(self)@, x as int, y as int),
            r == !connected(old(self)@, x as int, y as int),
    {
        let rx = self.root(x);
        let ry = self.root(y);
        if rx == ry {
            return false;
        }
        let ghost rts = self.roots@;
        let ghost dep = self.depths@;
        let ghost n = self.data.len() as int;
        proof {
            assert(class_of(rts, rx as int) =~= class_of(rts, x as int));
            assert(class_of(rts, ry as int) =~= class_of(rts, y as int));
            lemma_class_bounds(rts, x as int);
            lemma_class_bounds(rts, y as int);
            assert(class_of(rts, x as int).disjoint(class_of(rts, y as int)));
            lemma_len_disjoint_union(class_of(rts, x as int), class_of(rts, y as int));
            lemma_int_range(0, n);
            assert(class_of(rts, x as int).union(class_of(rts, y as int)).subset_of(
                set_int_range(0, n),
            ));
            lemma_len_subset(
                class_of(rts, x as int).union(class_of(rts, y as int)),
                set_int_range(0, n),
            );
        }
        let w: usize;
        let l: usize;
        if self.data[rx] < self.data[ry] {
            w = rx;
            l = ry;
        } else {
            w = ry;
            l = rx;
        }
        let combined: i32 = self.data[w] + self.data[l];
        self.data.set(w, combined);
        self.data.set(l, w as i32);
        let ghost nroots: Seq<int> = Seq::new(
            n as nat,
            |j: int|
                if rts[j] == l {
                    w as int
                } else {
                    rts[j]
                },
        );
        let ghost ndepths: Seq<int> = Seq::new(
            n as nat,
            |j: int|
                if rts[j] == l {
                    dep[j] + dep[w as int] + 1
                } else {
                    dep[j]
                },
        );
        self.roots = Ghost(nroots);
        self.depths = Ghost(ndepths);
        proof {
            let d = self.data@;
            assert forall|i: int| 0 <= i < n && #[trigger] d[i] >= 0 implies nroots[d[i] as int]
                == nroots[i] && ndepths[d[i] as int] < ndepths[i] by {}
            assert forall|i: int| 0 <= i < n && #[trigger] d[i] < 0 implies nroots[i] == i
                && -d[i] == class_of(nroots, i).len() by {
                if i == w as int {
                    assert(class_of(nroots, i) =~= class_of(rts, x as int).union(
                        class_of(rts, y as int),
                    ));
                } else {
                    assert(class_of(nroots, i) =~= class_of(rts, i));
                    lemma_class_bounds(rts, i);
                }
            }
            assert(final(self)@ =~= merged(old(self)@, x as int, y as int));
        }
        true
    }

    /// Returns whether `x` and `y` are in the same set.
    pub fn same(&mut self, x: usize, y: usize) -> (r: bool)
        requires
            old(self).wf(),
            x < old(self)@.len(),
            y < old(self)@.len(),
        ensures
            final(self).wf(),
            final(self)@ == old(self)@,
            r == connected(old(self)@, x as int, y as int),
    {
        let rx = self.root(x);
        let ry = self.root(y);
        rx == ry
    }

    /// Returns the number of elements of the set containing `x`.
    pub fn size(&mut self, x: usize) -> (r: u32)
        requires
            old(self).wf(),
            x < old(self)@.len(),
        ensures
            final(self).wf(),
            final(self)@ == old(self)@,
            r == class_of(old(self)@, x as int).len(),
    {
        let rt = self.root(x);
        proof {
            assert(class_of(self@, rt as int) =~= class_of(self@, x as int));
        }
        (-self.data[rt]) as u32
    }
}

} // verus!
