//! Binary indexed trees (Fenwick trees), point-update and range-update
//! variants, over a logical array of `i64` values.

use vstd::prelude::*;

verus! {

/// Sum of the logical values `v[b] + v[b+1] + ... + v[e-1]`
/// (`0` when `b >= e`).
pub open spec fn sum_range(v: Seq<int>, b: int, e: int) -> int
    decreases e - b,
{
    if b >= e {
        0
    } else {
        sum_range(v, b, e - 1) + v[e - 1]
    }
}

/// `x` is representable as an `i64`.
pub open spec fn in_i64(x: int) -> bool {
    i64::MIN <= x <= i64::MAX
}

/// Every contiguous range sum of `v` is representable as an `i64`.
pub open spec fn sums_fit(v: Seq<int>) -> bool {
    forall|b: int, e: int| 0 <= b <= e <= v.len() ==> in_i64(sum_range(v, b, e))
}

/// Splitting a range sum at an interior point.
pub proof fn lemma_sum_split(v: Seq<int>, a: int, b: int, c: int)
    requires
        a <= b <= c,
    ensures
        sum_range(v, a, c) == sum_range(v, a, b) + sum_range(v, b, c),
    decreases c - b,
{
    if b < c {
        lemma_sum_split(v, a, b, c - 1);
    }
}

/// A range sum over values that are all zero is zero.
pub proof fn lemma_sum_zero(v: Seq<int>, b: int, e: int)
    requires
        forall|i: int| b <= i < e ==> #[trigger] v[i] == 0,
    ensures
        sum_range(v, b, e) == 0,
    decreases e - b,
{
    if b < e {
        lemma_sum_zero(v, b, e - 1);
    }
}

/// A range sum of values bounded by `bound` in magnitude is bounded by the
/// range width times `bound`.
pub proof fn lemma_sum_bound(v: Seq<int>, b: int, e: int, bound: int)
    requires
        0 <= bound,
        0 <= b <= e <= v.len(),
        forall|i: int| 0 <= i < v.len() ==> -bound <= #[trigger] v[i] <= bound,
    ensures
        -((e - b) * bound) <= sum_range(v, b, e) <= (e - b) * bound,
    decreases e - b,
{
    if b < e {
        lemma_sum_bound(v, b, e - 1, bound);
        assert((e - b) * bound == (e - 1 - b) * bound + bound) by (nonlinear_arith);
    }
}

/// When every value is bounded by `bound` in magnitude and the whole array
/// is short enough, every range sum fits in an `i64`.
pub proof fn lemma_bounded_sums_fit(v: Seq<int>, bound: int)
    requires
        0 <= bound,
        forall|i: int| 0 <= i < v.len() ==> -bound <= #[trigger] v[i] <= bound,
        v.len() * bound <= i64::MAX,
    ensures
        sums_fit(v),
{
    assert forall|b: int, e: int| 0 <= b <= e <= v.len() implies in_i64(sum_range(v, b, e)) by {
        lemma_sum_bound(v, b, e, bound);
        assert((e - b) * bound <= v.len() * bound) by (nonlinear_arith)
            requires
                0 <= e - b <= v.len(),
                0 <= bound,
        ;
    }
}

/// How a range sum changes when one value is replaced.
pub proof fn lemma_sum_update(v: Seq<int>, i: int, x: int, b: int, e: int)
    requires
        0 <= i < v.len(),
        0 <= b <= e <= v.len(),
    ensures
        sum_range(v.update(i, x), b, e) == sum_range(v, b, e) + (if b <= i < e {
            x - v[i]
        } else {
            0
        }),
    decreases e - b,
{
    if b < e {
        lemma_sum_update(v, i, x, b, e - 1);
    }
}

/// Start of the range of logical indices accumulated in tree slot `j`:
/// slot `j` stores `v[j & (j+1)] + ... + v[j]`.
spec fn fen_lo(j: int) -> int {
    ((j as usize) & ((j + 1) as usize)) as int
}

proof fn lemma_fen_lo_bounds(j: usize, jp: usize)
    by (bit_vector)
    requires
        jp == j + 1,
    ensures
        j & jp <= j,
{
}

proof fn lemma_fen_grow(i: usize, ip: usize)
    by (bit_vector)
    requires
        ip == i + 1,
    ensures
        i < (i | ip),
{
}

/// The next slot of the update walk covers every logical index that the
/// current slot covers.
proof fn lemma_fen_chain(i: usize, ip: usize, n: usize, np: usize, i0: usize)
    by (bit_vector)
    requires
        ip == i + 1,
        n == (i | ip),
        np == n + 1,
        i & ip <= i0 <= i,
    ensures
        n & np <= i0,
{
}

/// No slot strictly between `i` and `i | (i+1)` covers a logical index that
/// slot `i` covers.
proof fn lemma_fen_gap(i: usize, ip: usize, j: usize, jp: usize, i0: usize)
    by (bit_vector)
    requires
        ip == i + 1,
        jp == j + 1,
        i & ip <= i0 <= i,
        i < j,
        j < (i | ip),
    ensures
        j & jp > i0,
{
}

/// `v` with `d` added to every entry with index in `[b, e)`.
pub open spec fn seq_add_on(v: Seq<int>, b: int, e: int, d: int) -> Seq<int> {
    Seq::new(
        v.len(),
        |i: int|
            v[i] + if b <= i < e {
                d
            } else {
                0
            },
    )
}

/// How a prefix sum changes when `d` is added on `[b, e)`.
proof fn lemma_sum_add_on_prefix(v: Seq<int>, b: int, e: int, d: int, k: int)
    requires
        0 <= b <= e <= v.len(),
        0 <= k <= v.len(),
    ensures
        sum_range(seq_add_on(v, b, e, d), 0, k) == sum_range(v, 0, k) + d * (if k <= b {
            0
        } else if k <= e {
            k - b
        } else {
            e - b
        }),
    decreases k,
{
    if k > 0 {
        lemma_sum_add_on_prefix(v, b, e, d, k - 1);
        if b < k <= e {
            assert(d * (k - b) == d * (k - 1 - b) + d) by (nonlinear_arith);
        }
    }
}

/// Binary indexed tree (0-indexed).
///
/// Supports, over a fixed-size logical array initialized to all zeros,
/// point updates and range sums, both in `O(log n)`.
pub struct BIT {
    tree: Vec<i64>,
    vals: Ghost<Seq<int>>,
}

impl View for BIT {
    type V = Seq<int>;

    /// The logical array the tree stands for.
    closed spec fn view(&self) -> Seq<int> {
        self.vals@
    }
}

impl BIT {
    /// Internal consistency: each tree slot holds the sum of its
    /// index-derived subrange of the logical array, and every range sum of
    /// the logical array fits in an `i64`.
    pub closed spec fn wf(self) -> bool {
        &&& self.tree.len() == self.vals@.len()
        &&& sums_fit(self.vals@)
        &&& forall|j: int|
            0 <= j < self.tree@.len() ==> #[trigger] self.tree@[j] == sum_range(
                self.vals@,
                fen_lo(j),
                j + 1,
            )
    }

    /// Constructs a new `BIT` of length `len`, with all logical values zero.
    pub fn new(len: usize) -> (r: BIT)
        ensures
            r.wf(),
            r@.len() == len,
            forall|i: int| 0 <= i < len ==> r@[i] == 0,
    {
        let mut tree: Vec<i64> = Vec::new();
        let ghost vals: Seq<int> = Seq::new(len as nat, |i: int| 0);
        while tree.len() < len
            invariant
                tree.len() <= len,
                forall|j: int| 0 <= j < tree.len() ==> tree@[j] == 0,
            decreases len - tree.len(),
        {
            tree.push(0);
        }
        proof {
            assert forall|b: int, e: int| 0 <= b <= e <= vals.len() implies in_i64(
                sum_range(vals, b, e),
            ) by {
                lemma_sum_zero(vals, b, e);
            }
            assert forall|j: int| 0 <= j < tree@.len() implies #[trigger] tree@[j] == sum_range(
                vals,
                fen_lo(j),
                j + 1,
            ) by {
                lemma_fen_lo_bounds(j as usize, (j + 1) as usize);
                lemma_sum_zero(vals, fen_lo(j), j + 1);
            }
        }
        BIT { tree, vals: Ghost(vals) }
    }

    /// Returns the number of elements of the logical array.
    pub fn len(&self) -> (r: usize)
        requires
            self.wf(),
        ensures
            r == self@.len(),
    {
        self.tree.len()
    }

    /// Adds `value` to the logical value at `index`.
    pub fn add(&mut self, index: usize, value: i64)
        requires
            old(self).wf(),
            index < old(self)@.len(),
            sums_fit(old(self)@.update(index as int, old(self)@[index as int] + value)),
        ensures
            final(self).wf(),
            final(self)@ == old(self)@.update(index as int, old(self)@[index as int] + value),
    {
        let ghost old_vals = self.vals@;
        let ghost nv = old_vals.update(index as int, old_vals[index as int] + value);
        self.vals = Ghost(nv);
        proof {
            lemma_fen_lo_bounds(index, (index + 1) as usize);
            assert forall|j: int| 0 <= j < index implies #[trigger] self.tree@[j] == sum_range(
                nv,
                fen_lo(j),
                j + 1,
            ) by {
                lemma_fen_lo_bounds(j as usize, (j + 1) as usize);
                lemma_sum_update(old_vals, index as int, nv[index as int], fen_lo(j), j + 1);
            }
        }
        let mut idx: usize = index;
        while idx < self.tree.len()
            invariant
                self.vals@ == nv,
                nv == old_vals.update(index as int, old_vals[index as int] + value),
                nv[index as int] == old_vals[index as int] + value,
                index < old_vals.len(),
                self.tree.len() == old_vals.len(),
                nv.len() == old_vals.len(),
                sums_fit(old_vals),
                sums_fit(nv),
                index <= idx,
                idx < self.tree.len() ==> fen_lo(idx as int) <= index,
                forall|j: int|
                    0 <= j < idx && j < self.tree@.len() ==> #[trigger] self.tree@[j] == sum_range(
                        nv,
                        fen_lo(j),
                        j + 1,
                    ),
                forall|j: int|
                    idx <= j < self.tree@.len() ==> #[trigger] self.tree@[j] == sum_range(
                        old_vals,
                        fen_lo(j),
                        j + 1,
                    ),
            decreases (if idx <= self.tree.len() {
                self.tree@.len() - idx
            } else {
                0int
            }),
        {
            proof {
                lemma_sum_update(
                    old_vals,
                    index as int,
                    nv[index as int],
                    fen_lo(idx as int),
                    idx + 1,
                );
                assert(in_i64(sum_range(nv, fen_lo(idx as int), idx + 1)));
            }
            let slot: i64 = self.tree[idx] + value;
            self.tree.set(idx, slot);
            let next: usize = idx | (idx + 1);
            proof {
                lemma_fen_grow(idx, (idx + 1) as usize);
                if next < self.tree.len() {
                    lemma_fen_chain(idx, (idx + 1) as usize, next, (next + 1) as usize, index);
                }
                assert forall|j: int|
                    idx < j < next && j < self.tree@.len() implies #[trigger] self.tree@[j]
                    == sum_range(nv, fen_lo(j), j + 1) by {
                    lemma_fen_gap(idx, (idx + 1) as usize, j as usize, (j + 1) as usize, index);
                    lemma_fen_lo_bounds(j as usize, (j + 1) as usize);
                    lemma_sum_update(old_vals, index as int, nv[index as int], fen_lo(j), j + 1);
                }
            }
            idx = next;
        }
        proof {
            assert(self@ =~= old(self)@.update(index as int, old(self)@[index as int] + value));
        }
    }

    /// Returns the sum of the logical values with index in `[begin, end)`,
    /// or `0` when `begin >= end`.
    pub fn get(&self, begin: usize, end: usize) -> (r: i64)
        requires
            self.wf(),
            begin < end ==> end <= self@.len(),
        ensures
            r == sum_range(self@, begin as int, end as int),
    {
        if begin >= end {
            return 0;
        }
        let a: i64 = self.cum(end - 1);
        let b: i64 = if begin > 0 {
            self.cum(begin - 1)
        } else {
            0
        };
        proof {
            lemma_sum_split(self@, 0, begin as int, end as int);
        }
        a - b
    }

    /// Sum of the logical values `v[0] + ... + v[last]`.
    fn cum(&self, last: usize) -> (r: i64)
        requires
            self.wf(),
            last < self@.len(),
        ensures
            r == sum_range(self@, 0, last + 1),
    {
        let mut res: i64 = 0;
        let mut idx: usize = last;
        let mut done: bool = false;
        while !done
            invariant
                self.wf(),
                idx <= last < self@.len(),
                !done ==> res == sum_range(self@, idx + 1, last + 1),
                done ==> res == sum_range(self@, 0, last + 1),
            decreases idx + (if done {
                0int
            } else {
                1int
            }),
        {
            proof {
                lemma_fen_lo_bounds(idx, (idx + 1) as usize);
                lemma_sum_split(self@, fen_lo(idx as int), idx + 1, last + 1);
                assert(in_i64(sum_range(self@, fen_lo(idx as int), last + 1)));
            }
            res = res + self.tree[idx];
            let m: usize = idx & (idx + 1);
            if m == 0 {
                done = true;
            } else {
                idx = m - 1;
            }
        }
        res
    }
}

/// Binary indexed tree, range-update / range-sum variant (0-indexed).
///
/// The cumulative update is represented as two linear coefficients tracked
/// by two point-update trees, so that
/// `prefix(k) == bit0.prefix(k) + bit1.prefix(k) * k`.
pub struct BITRange {
    bit0: BIT,
    bit1: BIT,
    vals: Ghost<Seq<int>>,
}

impl View for BITRange {
    type V = Seq<int>;

    /// The logical array the pair of trees stands for.
    closed spec fn view(&self) -> Seq<int> {
        self.vals@
    }
}

impl BITRange {
    /// Logical array of the first internal tree: the constant coefficients.
    pub closed spec fn coeff0(self) -> Seq<int> {
        self.bit0@
    }

    /// Logical array of the second internal tree: the linear coefficients.
    pub closed spec fn coeff1(self) -> Seq<int> {
        self.bit1@
    }

    /// Internal consistency: both trees are consistent, their lengths are
    /// one more than the logical length, every prefix of the logical array
    /// is the linear combination of the coefficient prefixes, and the
    /// arithmetic of a query stays within `i64`.
    pub closed spec fn wf(self) -> bool {
        &&& self.bit0.wf()
        &&& self.bit1.wf()
        &&& self.bit0@.len() == self.vals@.len() + 1
        &&& self.bit1@.len() == self.vals@.len() + 1
        &&& self.vals@.len() <= i64::MAX
        &&& sums_fit(self.vals@)
        &&& forall|k: int|
            0 <= k <= self.vals@.len() ==> #[trigger] sum_range(self.bit0@, 0, k) + k * sum_range(
                self.bit1@,
                0,
                k,
            ) == sum_range(self.vals@, 0, k)
        &&& forall|k: int|
            0 <= k <= self.vals@.len() ==> in_i64(k * #[trigger] sum_range(self.bit1@, 0, k))
    }

    /// The machine conditions under which a range update is free of
    /// overflow: the two point updates of each internal tree keep every
    /// range sum of its coefficient array inside `i64`, and so does the
    /// updated logical array.
    pub open spec fn can_add(self, b: int, e: int, d: int) -> bool {
        b < e ==> {
            let c0 = self.coeff0();
            let c1 = self.coeff1();
            let c0m = c0.update(b, c0[b] + (-d) * b);
            let c0f = c0m.update(e, c0m[e] + d * e);
            let c1m = c1.update(b, c1[b] + d);
            let c1f = c1m.update(e, c1m[e] - d);
            &&& e <= self@.len()
            &&& in_i64(-d)
            &&& in_i64((-d) * b)
            &&& in_i64(d * e)
            &&& sums_fit(c0m)
            &&& sums_fit(c0f)
            &&& sums_fit(c1m)
            &&& sums_fit(c1f)
            &&& sums_fit(seq_add_on(self@, b, e, d))
            &&& forall|k: int|
                0 <= k <= self@.len() ==> in_i64(k * #[trigger] sum_range(c1f, 0, k))
        }
    }

    /// Constructs a new `BITRange` over `n` logical values, all zero.
    pub fn new(n: usize) -> (r: BITRange)
        requires
            n + 1 <= usize::MAX,
            n <= i64::MAX,
        ensures
            r.wf(),
            r@.len() == n,
            forall|i: int| 0 <= i < n ==> r@[i] == 0,
            r.coeff0() == Seq::new((n + 1) as nat, |i: int| 0int),
            r.coeff1() == Seq::new((n + 1) as nat, |i: int| 0int),
    {
        let bit0 = BIT::new(n + 1);
        let bit1 = BIT::new(n + 1);
        let ghost vals: Seq<int> = Seq::new(n as nat, |i: int| 0);
        proof {
            assert forall|b: int, e: int| 0 <= b <= e <= vals.len() implies in_i64(
                sum_range(vals, b, e),
            ) by {
                lemma_sum_zero(vals, b, e);
            }
            assert forall|k: int| 0 <= k <= vals.len() implies #[trigger] sum_range(bit0@, 0, k)
                + k * sum_range(bit1@, 0, k) == sum_range(vals, 0, k) by {
                lemma_sum_zero(bit0@, 0, k);
                lemma_sum_zero(bit1@, 0, k);
                lemma_sum_zero(vals, 0, k);
                assert(k * 0 == 0) by (nonlinear_arith);
            }
            assert forall|k: int| 0 <= k <= vals.len() implies in_i64(
                k * #[trigger] sum_range(bit1@, 0, k),
            ) by {
                lemma_sum_zero(bit1@, 0, k);
                assert(k * 0 == 0) by (nonlinear_arith);
            }
            assert(bit0@ =~= Seq::new((n + 1) as nat, |i: int| 0));
            assert(bit1@ =~= Seq::new((n + 1) as nat, |i: int| 0));
        }
        BITRange { bit0, bit1, vals: Ghost(vals) }
    }

    /// Adds `by` to every logical value with index in `[begin, end)`;
    /// an empty range is a no-op.
    pub fn add(&mut self, begin: usize, end: usize, by: i64)
        requires
            old(self).wf(),
            old(self).can_add(begin as int, end as int, by as int),
        ensures
            final(self).wf(),
            final(self)@ == seq_add_on(old(self)@, begin as int, end as int, by as int),
            final(self).coeff0() == (if begin < end {
                let c0 = old(self).coeff0();
                let c0m = c0.update(begin as int, c0[begin as int] + (-(by as int)) * begin);
                c0m.update(end as int, c0m[end as int] + (by as int) * end)
            } else {
                old(self).coeff0()
            }),
            final(self).coeff1() == (if begin < end {
                let c1 = old(self).coeff1();
                let c1m = c1.update(begin as int, c1[begin as int] + by);
                c1m.update(end as int, c1m[end as int] - by)
            } else {
                old(self).coeff1()
            }),
    {
        if begin >= end {
            proof {
                assert(self@ =~= seq_add_on(self@, begin as int, end as int, by as int));
            }
            return ;
        }
        let ghost old_vals = self.vals@;
        let ghost n = old_vals.len() as int;
        let ghost c0 = self.bit0@;
        let ghost c1 = self.bit1@;
        let ghost nvals = seq_add_on(old_vals, begin as int, end as int, by as int);
        let a: i64 = begin as i64;
        let bb: i64 = end as i64;
        let neg: i64 = -by;
        self.bit0.add(begin, neg * a);
        self.bit0.add(end, by * bb);
        self.bit1.add(begin, by);
        self.bit1.add(end, -by);
        self.vals = Ghost(nvals);
        proof {
            let b = begin as int;
            let e = end as int;
            let d = by as int;
            let c0f = self.bit0@;
            let c1f = self.bit1@;
            assert(c0f == {
                let c0m = c0.update(b, c0[b] + (-d) * b);
                c0m.update(e, c0m[e] + d * e)
            });
            assert(c1f == {
                let c1m = c1.update(b, c1[b] + d);
                c1m.update(e, c1m[e] - d)
            });
            assert forall|k: int| 0 <= k <= nvals.len() implies #[trigger] sum_range(c0f, 0, k) + k
                * sum_range(c1f, 0, k) == sum_range(nvals, 0, k) by {
                let c0m = c0.update(b, c0[b] + (-d) * b);
                let c1m = c1.update(b, c1[b] + d);
                lemma_sum_update(c0, b, c0[b] + (-d) * b, 0, k);
                lemma_sum_update(c0m, e, c0m[e] + d * e, 0, k);
                lemma_sum_update(c1, b, c1[b] + d, 0, k);
                lemma_sum_update(c1m, e, c1m[e] - d, 0, k);
                lemma_sum_add_on_prefix(old_vals, b, e, d, k);
                let s1 = sum_range(c1, 0, k);
                if k <= b {
                } else if k <= e {
                    assert(k * (s1 + d) == k * s1 + k * d) by (nonlinear_arith);
                    assert(d * (k - b) == k * d + (-d) * b) by (nonlinear_arith);
                } else {
                    assert(k * (s1 + d - d) == k * s1) by (nonlinear_arith);
                    assert(d * (e - b) == (-d) * b + d * e) by (nonlinear_arith);
                }
            }
        }
    }

    /// Returns the sum of the logical values with index in `[begin, end)`,
    /// or `0` when `begin >= end`.
    pub fn get(&self, begin: usize, end: usize) -> (r: i64)
        requires
            self.wf(),
            begin < end ==> end <= self@.len(),
        ensures
            r == sum_range(self@, begin as int, end as int),
    {
        if begin >= end {
            return 0;
        }
        let a: i64 = self.cum(end);
        let b: i64 = self.cum(begin);
        proof {
            lemma_sum_split(self@, 0, begin as int, end as int);
        }
        a - b
    }

    /// Sum of the logical values `v[0] + ... + v[end-1]`.
    fn cum(&self, end: usize) -> (r: i64)
        requires
            self.wf(),
            end <= self@.len(),
        ensures
            r == sum_range(self@, 0, end as int),
    {
        let a: i64 = self.bit0.get(0, end);
        let b: i64 = self.bit1.get(0, end);
        proof {
            let k = end as int;
            assert(in_i64(k * sum_range(self.bit1@, 0, k)));
            assert(in_i64(sum_range(self@, 0, k)));
            assert((b as int) * k == k * (b as int)) by (nonlinear_arith);
        }
        a + b * (end as i64)
    }
}

} // verus!
