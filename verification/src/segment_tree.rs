//! Segment tree over a caller-supplied associative combining operation,
//! supporting point updates and range reductions in `O(log n)`.

use vstd::prelude::*;
use core::marker::PhantomData;

verus! {

/// An associative combining operation over `Option<T>`, with `None` as its
/// two-sided identity element. Implement it to build a custom segment tree;
/// `MinOp` and `MaxOp` are reference implementations.
pub trait Monoid<T>: Sized {
    /// The combining operation at the specification level.
    spec fn op_spec(l: Option<T>, r: Option<T>) -> Option<T>;

    /// The identity element is a two-sided unit of the operation.
    proof fn lemma_identity(x: Option<T>)
        ensures
            Self::op_spec(None, x) == x,
            Self::op_spec(x, None) == x,
    ;

    /// The operation is associative.
    proof fn lemma_assoc(x: Option<T>, y: Option<T>, z: Option<T>)
        ensures
            Self::op_spec(Self::op_spec(x, y), z) == Self::op_spec(x, Self::op_spec(y, z)),
    ;

    /// The identity element.
    fn id() -> (r: Option<T>)
        ensures
            r == Option::<T>::None,
    ;

    /// The combining operation.
    fn op(l: &Option<T>, r: &Option<T>) -> (o: Option<T>)
        ensures
            o == Self::op_spec(*l, *r),
    ;
}

/// Minimum of two `i64` values, absent values losing.
pub struct MinOp;

impl Monoid<i64> for MinOp {
    open spec fn op_spec(l: Option<i64>, r: Option<i64>) -> Option<i64> {
        match (l, r) {
            (Some(a), Some(b)) => Some(
                if a <= b {
                    a
                } else {
                    b
                },
            ),
            (Some(a), None) => Some(a),
            (None, Some(b)) => Some(b),
            (None, None) => None,
        }
    }

    proof fn lemma_identity(x: Option<i64>) {
    }

    proof fn lemma_assoc(x: Option<i64>, y: Option<i64>, z: Option<i64>) {
    }

    fn id() -> (r: Option<i64>) {
        None
    }

    fn op(l: &Option<i64>, r: &Option<i64>) -> (o: Option<i64>) {
        match (l, r) {
            (Some(a), Some(b)) => Some(
                if *a <= *b {
                    *a
                } else {
                    *b
                },
            ),
            (Some(a), None) => Some(*a),
            (None, Some(b)) => Some(*b),
            (None, None) => None,
        }
    }
}

/// Maximum of two `i64` values, absent values losing.
pub struct MaxOp;

impl Monoid<i64> for MaxOp {
    open spec fn op_spec(l: Option<i64>, r: Option<i64>) -> Option<i64> {
        match (l, r) {
            (Some(a), Some(b)) => Some(
                if a >= b {
                    a
                } else {
                    b
                },
            ),
            (Some(a), None) => Some(a),
            (None, Some(b)) => Some(b),
            (None, None) => None,
        }
    }

    proof fn lemma_identity(x: Option<i64>) {
    }

    proof fn lemma_assoc(x: Option<i64>, y: Option<i64>, z: Option<i64>) {
    }

    fn id() -> (r: Option<i64>) {
        None
    }

    fn op(l: &Option<i64>, r: &Option<i64>) -> (o: Option<i64>) {
        match (l, r) {
            (Some(a), Some(b)) => Some(
                if *a >= *b {
                    *a
                } else {
                    *b
                },
            ),
            (Some(a), None) => Some(*a),
            (None, Some(b)) => Some(*b),
            (None, None) => None,
        }
    }
}

/// Left-to-right reduction under `M` of the values `v[b], ..., v[e-1]`,
/// `None` for an empty range.
pub open spec fn reduce<M: Monoid<T>, T>(v: Seq<T>, b: int, e: int) -> Option<T>
    decreases e - b,
{
    if b >= e {
        Option::<T>::None
    } else {
        M::op_spec(reduce::<M, T>(v, b, e - 1), Some(v[e - 1]))
    }
}

/// Left-to-right fold under `M` of the tree slots `d[l], ..., d[r-1]`.
spec fn fold_nodes<M: Monoid<T>, T>(d: Seq<Option<T>>, l: int, r: int) -> Option<T>
    decreases r - l,
{
    if l >= r {
        Option::<T>::None
    } else {
        M::op_spec(fold_nodes::<M, T>(d, l, r - 1), d[r - 1])
    }
}

/// Peeling the leftmost slot off a fold.
proof fn lemma_fold_front<M: Monoid<T>, T>(d: Seq<Option<T>>, l: int, r: int)
    requires
        l < r,
    ensures
        fold_nodes::<M, T>(d, l, r) == M::op_spec(d[l], fold_nodes::<M, T>(d, l + 1, r)),
    decreases r - l,
{
    if r == l + 1 {
        M::lemma_identity(d[l]);
    } else {
        lemma_fold_front::<M, T>(d, l, r - 1);
        M::lemma_assoc(d[l], fold_nodes::<M, T>(d, l + 1, r - 1), d[r - 1]);
    }
}

/// A fold over leaf slots holding `Some` of the logical values equals the
/// reduction of those values.
proof fn lemma_fold_leaves<M: Monoid<T>, T>(d: Seq<Option<T>>, v: Seq<T>, off: int, b: int, e: int)
    requires
        b <= e,
        forall|k: int| off + b <= k < off + e ==> #[trigger] d[k] == Some(v[k - off]),
    ensures
        fold_nodes::<M, T>(d, off + b, off + e) == reduce::<M, T>(v, b, e),
    decreases e - b,
{
    if b < e {
        lemma_fold_leaves::<M, T>(d, v, off, b, e - 1);
    }
}

/// A fold over a run of siblings equals the fold over their parents, when
/// every parent slot combines its two children.
proof fn lemma_fold_pairs<M: Monoid<T>, T>(d: Seq<Option<T>>, a: int, b: int)
    requires
        1 <= a <= b,
        2 * b <= d.len(),
        forall|j: int| a <= j < b ==> #[trigger] d[j] == M::op_spec(d[2 * j], d[2 * j + 1]),
    ensures
        fold_nodes::<M, T>(d, 2 * a, 2 * b) == fold_nodes::<M, T>(d, a, b),
    decreases b - a,
{
    if a < b {
        lemma_fold_pairs::<M, T>(d, a, b - 1);
        assert(fold_nodes::<M, T>(d, 2 * a, 2 * b - 1) == M::op_spec(
            fold_nodes::<M, T>(d, 2 * a, 2 * b - 2),
            d[2 * b - 2],
        ));
        assert(fold_nodes::<M, T>(d, 2 * a, 2 * b) == M::op_spec(
            fold_nodes::<M, T>(d, 2 * a, 2 * b - 1),
            d[2 * b - 1],
        ));
        M::lemma_assoc(fold_nodes::<M, T>(d, 2 * a, 2 * b - 2), d[2 * b - 2], d[2 * b - 1]);
        assert(d[b - 1] == M::op_spec(d[2 * (b - 1)], d[2 * (b - 1) + 1]));
        assert(fold_nodes::<M, T>(d, a, b) == M::op_spec(fold_nodes::<M, T>(d, a, b - 1), d[b - 1]));
    }
}

/// Absorbing the leftmost slot of the pending fold into the left
/// accumulator keeps the combined value.
proof fn lemma_peel_front<M: Monoid<T>, T>(
    d: Seq<Option<T>>,
    a: int,
    b: int,
    res1: Option<T>,
    res2: Option<T>,
)
    requires
        a < b,
    ensures
        M::op_spec(res1, M::op_spec(fold_nodes::<M, T>(d, a, b), res2)) == M::op_spec(
            M::op_spec(res1, d[a]),
            M::op_spec(fold_nodes::<M, T>(d, a + 1, b), res2),
        ),
{
    lemma_fold_front::<M, T>(d, a, b);
    M::lemma_assoc(d[a], fold_nodes::<M, T>(d, a + 1, b), res2);
    M::lemma_assoc(res1, d[a], M::op_spec(fold_nodes::<M, T>(d, a + 1, b), res2));
}

/// Absorbing the rightmost slot of the pending fold into the right
/// accumulator keeps the combined value.
proof fn lemma_peel_back<M: Monoid<T>, T>(
    d: Seq<Option<T>>,
    a: int,
    b: int,
    res1: Option<T>,
    res2: Option<T>,
)
    requires
        a <= b,
    ensures
        M::op_spec(res1, M::op_spec(fold_nodes::<M, T>(d, a, b + 1), res2)) == M::op_spec(
            res1,
            M::op_spec(fold_nodes::<M, T>(d, a, b), M::op_spec(d[b], res2)),
        ),
{
    assert(fold_nodes::<M, T>(d, a, b + 1) == M::op_spec(fold_nodes::<M, T>(d, a, b), d[b]));
    M::lemma_assoc(fold_nodes::<M, T>(d, a, b), d[b], res2);
}

/// The reduction of an empty range is the identity element, whatever the
/// values.
pub proof fn lemma_reduce_empty<M: Monoid<T>, T>(v: Seq<T>, k: int)
    ensures
        reduce::<M, T>(v, k, k) == Option::<T>::None,
{
}

/// A point update changes no reduction of a range that does not contain
/// the updated position.
pub proof fn lemma_reduce_unchanged<M: Monoid<T>, T>(v: Seq<T>, pos: int, x: T, b: int, e: int)
    requires
        0 <= pos < v.len(),
        0 <= b <= e <= v.len(),
        !(b <= pos < e),
    ensures
        reduce::<M, T>(v.update(pos, x), b, e) == reduce::<M, T>(v, b, e),
    decreases e - b,
{
    if b < e {
        lemma_reduce_unchanged::<M, T>(v, pos, x, b, e - 1);
    }
}

/// Proper ancestor relation in the implicit binary tree: `j` is reached
/// from `l` by at least one halving.
spec fn is_panc(l: int, j: int) -> bool
    decreases l,
{
    l >= 2 && (j == l / 2 || is_panc(l / 2, j))
}

/// The parent of a proper ancestor is again a proper ancestor.
proof fn lemma_panc_step(l: int, j: int)
    requires
        is_panc(l, j),
        j >= 2,
    ensures
        is_panc(l, j / 2),
    decreases l,
{
    if j == l / 2 {
        assert(is_panc(l / 2, j / 2));
    } else {
        lemma_panc_step(l / 2, j);
    }
}

/// Segment tree over a padded power-of-two array representation: node `j`
/// combines its children `2j` and `2j+1`, leaves start at `size_p2`.
pub struct SegmentTree<M: Monoid<T>, T> {
    data: Vec<Option<T>>,
    size: usize,
    size_p2: usize,
    vals: Ghost<Seq<T>>,
    phantom: PhantomData<M>,
}

impl<M: Monoid<T>, T> View for SegmentTree<M, T> {
    type V = Seq<T>;

    /// The logical sequence of values at the leaves.
    closed spec fn view(&self) -> Seq<T> {
        self.vals@
    }
}

impl<M: Monoid<T>, T> SegmentTree<M, T> {
    /// Internal consistency: leaves hold the logical values, padding leaves
    /// hold the identity, and every internal node combines its children.
    pub closed spec fn wf(self) -> bool {
        &&& self.size == self.vals@.len()
        &&& 1 <= self.size_p2
        &&& self.size <= self.size_p2
        &&& self.data.len() == 2 * self.size_p2
        &&& forall|k: int|
            self.size_p2 <= k < self.size_p2 + self.size ==> #[trigger] self.data@[k] == Some(
                self.vals@[k - self.size_p2],
            )
        &&& forall|k: int|
            self.size_p2 + self.size <= k < 2 * self.size_p2 ==> #[trigger] self.data@[k]
                == Option::<T>::None
        &&& forall|j: int|
            1 <= j < self.size_p2 ==> #[trigger] self.data@[j] == M::op_spec(
                self.data@[2 * j],
                self.data@[2 * j + 1],
            )
    }

    /// Builds a segment tree over the logical values `v`.
    pub fn from_vec(v: Vec<T>) -> (r: SegmentTree<M, T>)
        requires
            4 * v@.len() <= usize::MAX,
        ensures
            r.wf(),
            r@ == v@,
    {
        let size = v.len();
        let ghost vseq = v@;
        let mut size_p2: usize = 1;
        while size_p2 < size
            invariant
                1 <= size_p2,
                size >= 1 ==> size_p2 <= 2 * size - 1,
                size == 0 ==> size_p2 == 1,
                4 * size <= usize::MAX,
            decreases (if size_p2 <= size {
                size - size_p2
            } else {
                0int
            }),
        {
            size_p2 = size_p2 * 2;
        }
        let mut data: Vec<Option<T>> = Vec::new();
        while data.len() < size_p2
            invariant
                data.len() <= size_p2,
                forall|k: int| 0 <= k < data.len() ==> #[trigger] data@[k] == Option::<T>::None,
            decreases size_p2 - data.len(),
        {
            data.push(None);
        }
        let mut rest = v;
        while rest.len() > 0
            invariant
                size == vseq.len(),
                size <= size_p2,
                rest.len() <= size,
                size_p2 + size <= usize::MAX,
                data.len() == size_p2 + size - rest.len(),
                rest@ == vseq.subrange(size - rest.len(), size as int),
                forall|k: int| 0 <= k < size_p2 ==> #[trigger] data@[k] == Option::<T>::None,
                forall|k: int|
                    size_p2 <= k < data.len() ==> #[trigger] data@[k] == Some(vseq[k - size_p2]),
            decreases rest.len(),
        {
            let ghost m = size - rest.len();
            let x = rest.remove(0);
            proof {
                assert(x == vseq[m as int]);
                assert(rest@ =~= vseq.subrange(m + 1, size as int));
            }
            data.push(Some(x));
        }
        while data.len() < 2 * size_p2
            invariant
                size == vseq.len(),
                size <= size_p2,
                1 <= size_p2,
                2 * size_p2 <= usize::MAX,
                size_p2 + size <= data.len() <= 2 * size_p2,
                forall|k: int| 0 <= k < size_p2 ==> #[trigger] data@[k] == Option::<T>::None,
                forall|k: int|
                    size_p2 <= k < size_p2 + size ==> #[trigger] data@[k] == Some(
                        vseq[k - size_p2],
                    ),
                forall|k: int|
                    size_p2 + size <= k < data.len() ==> #[trigger] data@[k] == Option::<T>::None,
            decreases 2 * size_p2 - data.len(),
        {
            data.push(None);
        }
        let mut j: usize = size_p2;
        while j > 1
            invariant
                size == vseq.len(),
                size <= size_p2,
                1 <= j <= size_p2,
                data.len() == 2 * size_p2,
                forall|k: int|
                    size_p2 <= k < size_p2 + size ==> #[trigger] data@[k] == Some(
                        vseq[k - size_p2],
                    ),
                forall|k: int|
                    size_p2 + size <= k < 2 * size_p2 ==> #[trigger] data@[k]
                        == Option::<T>::None,
                forall|k: int|
                    j <= k < size_p2 ==> #[trigger] data@[k] == M::op_spec(
                        data@[2 * k],
                        data@[2 * k + 1],
                    ),
            decreases j,
        {
            j = j - 1;
            let c = M::op(&data[2 * j], &data[2 * j + 1]);
            data.set(j, c);
        }
        SegmentTree { data, size, size_p2, vals: Ghost(vseq), phantom: PhantomData }
    }

    /// Returns the number of logical values.
    pub fn size(&self) -> (r: usize)
        requires
            self.wf(),
        ensures
            r == self@.len(),
    {
        self.size
    }

    /// Replaces the value at `pos` and recomputes the ancestors of its
    /// leaf.
    pub fn update(&mut self, pos: usize, value: T)
        requires
            old(self).wf(),
            pos < old(self)@.len(),
        ensures
            final(self).wf(),
            final(self)@ == old(self)@.update(pos as int, value),
    {
        let ghost nv = self.vals@.update(pos as int, value);
        let ghost p2 = self.size_p2 as int;
        let ghost leaf = p2 + pos;
        self.vals = Ghost(nv);
        let mut node: usize = self.size_p2 + pos;
        self.data.set(node, Some(value));
        while node > 1
            invariant
                self.size == nv.len(),
                self.vals@ == nv,
                1 <= self.size_p2,
                self.size <= self.size_p2,
                p2 == self.size_p2 as int,
                leaf == p2 + pos,
                pos < self.size,
                self.data.len() == 2 * self.size_p2,
                1 <= node,
                node == leaf || is_panc(leaf, node as int),
                node < 2 * self.size_p2,
                forall|k: int|
                    self.size_p2 <= k < self.size_p2 + self.size ==> #[trigger] self.data@[k]
                        == Some(nv[k - p2]),
                forall|k: int|
                    self.size_p2 + self.size <= k < 2 * self.size_p2 ==> #[trigger] self.data@[k]
                        == Option::<T>::None,
                forall|j: int|
                    1 <= j < self.size_p2 && !is_panc(node as int, j) ==> #[trigger] self.data@[j]
                        == M::op_spec(self.data@[2 * j], self.data@[2 * j + 1]),
            decreases node,
        {
            let ghost prev = node as int;
            node = node / 2;
            proof {
                if prev == leaf {
                    assert(is_panc(leaf, leaf / 2));
                } else {
                    lemma_panc_step(leaf, prev);
                }
            }
            let c = M::op(&self.data[2 * node], &self.data[2 * node + 1]);
            self.data.set(node, c);
            proof {
                let nd = node as int;
                assert forall|j: int|
                    1 <= j < self.size_p2 && !is_panc(nd, j) implies #[trigger] self.data@[j]
                    == M::op_spec(self.data@[2 * j], self.data@[2 * j + 1]) by {
                    if j != nd {
                        assert(!is_panc(prev, j));
                    }
                }
            }
        }
    }

    /// Returns the left-to-right reduction of the values with index in
    /// `[l, r)`, the identity for an empty range.
    #[verifier::rlimit(100)]
    pub fn query(&self, l: usize, r: usize) -> (res: Option<T>)
        requires
            self.wf(),
            l <= r,
            r <= self@.len(),
        ensures
            res == reduce::<M, T>(self@, l as int, r as int),
    {
        let ghost target = reduce::<M, T>(self@, l as int, r as int);
        let mut a: usize = l + self.size_p2;
        let mut b: usize = r + self.size_p2;
        let mut res1: Option<T> = M::id();
        let mut res2: Option<T> = M::id();
        proof {
            lemma_fold_leaves::<M, T>(self.data@, self.vals@, self.size_p2 as int, l as int, r as int);
            M::lemma_identity(fold_nodes::<M, T>(self.data@, a as int, b as int));
            M::lemma_identity(M::op_spec(fold_nodes::<M, T>(self.data@, a as int, b as int), None));
        }
        while a < b
            invariant
                1 <= a <= b,
                b <= self.data.len(),
                self.data.len() == 2 * self.size_p2,
                forall|j: int|
                    1 <= j < self.size_p2 ==> #[trigger] self.data@[j] == M::op_spec(
                        self.data@[2 * j],
                        self.data@[2 * j + 1],
                    ),
                M::op_spec(res1, M::op_spec(fold_nodes::<M, T>(self.data@, a as int, b as int), res2))
                    == target,
            decreases b - a,
        {
            if a % 2 == 1 {
                proof {
                    lemma_peel_front::<M, T>(self.data@, a as int, b as int, res1, res2);
                }
                res1 = M::op(&res1, &self.data[a]);
                a = a + 1;
            }
            if b % 2 == 1 {
                b = b - 1;
                proof {
                    lemma_peel_back::<M, T>(self.data@, a as int, b as int, res1, res2);
                }
                res2 = M::op(&self.data[b], &res2);
            }
            proof {
                lemma_fold_pairs::<M, T>(self.data@, a as int / 2, b as int / 2);
                assert(2 * (a as int / 2) == a as int);
                assert(2 * (b as int / 2) == b as int);
            }
            a = a / 2;
            b = b / 2;
        }
        proof {
            M::lemma_identity(res2);
        }
        M::op(&res1, &res2)
    }
}

/// Segment tree answering range-minimum queries over `i64` values.
pub type RMQ = SegmentTree<MinOp, i64>;

} // verus!
