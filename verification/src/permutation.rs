//! In-place stepping to the lexicographically next or previous
//! rearrangement of a slice.

use vstd::prelude::*;
use vstd::seq_lib::{to_multiset_update, to_multiset_contains};

verus! {

/// No later element is larger than an earlier one.
pub open spec fn non_increasing(s: Seq<i64>) -> bool {
    forall|p: int, q: int| 0 <= p <= q < s.len() ==> s[p] >= s[q]
}

/// No later element is smaller than an earlier one.
pub open spec fn non_decreasing(s: Seq<i64>) -> bool {
    forall|p: int, q: int| 0 <= p <= q < s.len() ==> s[p] <= s[q]
}

/// `a` is lexicographically greater than `b`: they agree on a proper
/// prefix and `a` is larger at the first difference.
pub open spec fn lex_gt(a: Seq<i64>, b: Seq<i64>) -> bool {
    exists|k: int|
        0 <= k < a.len() && k < b.len() && #[trigger] a.subrange(0, k) == b.subrange(0, k) && a[k]
            > b[k]
}

proof fn lemma_adj_chain_ge(s: Seq<i64>, p: int, q: int)
    requires
        forall|k: int| 0 <= k < s.len() - 1 ==> #[trigger] s[k] >= s[k + 1],
        0 <= p <= q < s.len(),
    ensures
        s[p] >= s[q],
    decreases q - p,
{
    if p < q {
        lemma_adj_chain_ge(s, p, q - 1);
        assert(s[q - 1] >= s[q]);
    }
}

proof fn lemma_adj_chain_le(s: Seq<i64>, p: int, q: int)
    requires
        forall|k: int| 0 <= k < s.len() - 1 ==> #[trigger] s[k] <= s[k + 1],
        0 <= p <= q < s.len(),
    ensures
        s[p] <= s[q],
    decreases q - p,
{
    if p < q {
        lemma_adj_chain_le(s, p, q - 1);
        assert(s[q - 1] <= s[q]);
    }
}

/// Exchanging two elements keeps the multiset of elements.
proof fn lemma_swap_to_multiset(s: Seq<i64>, i: int, j: int)
    requires
        0 <= i < s.len(),
        0 <= j < s.len(),
    ensures
        s.update(i, s[j]).update(j, s[i]).to_multiset() == s.to_multiset(),
{
    if i == j {
        assert(s.update(i, s[j]).update(j, s[i]) =~= s);
    } else {
        let s1 = s.update(i, s[j]);
        to_multiset_update(s, i, s[j]);
        to_multiset_update(s1, j, s[i]);
        to_multiset_contains(s, s[i]);
        to_multiset_contains(s, s[j]);
        assert(s.contains(s[i]));
        assert(s.contains(s[j]));
        assert(s1[j] == s[j]);
        assert(s.update(i, s[j]).update(j, s[i]).to_multiset() =~= s.to_multiset());
    }
}

/// Reverses `s[from..]` in place.
fn reverse_range(s: &mut [i64], from: usize)
    requires
        from <= old(s)@.len(),
    ensures
        final(s)@.len() == old(s)@.len(),
        final(s)@.to_multiset() == old(s)@.to_multiset(),
        final(s)@.subrange(0, from as int) == old(s)@.subrange(0, from as int),
        forall|k: int|
            from <= k < old(s)@.len() ==> #[trigger] final(s)@[k] == old(s)@[old(s)@.len() - 1 - k
                + from],
{
    let ghost len = s@.len() as int;
    let mut lo = from;
    let mut hi = s.len();
    while hi - lo > 1
        invariant
            s@.len() == len,
            from <= lo <= hi <= len,
            lo - from == len - hi,
            s@.to_multiset() == old(s)@.to_multiset(),
            s@.subrange(0, from as int) == old(s)@.subrange(0, from as int),
            forall|k: int|
                (from <= k < lo || hi <= k < len) ==> #[trigger] s@[k] == old(s)@[len - 1 - k
                    + from],
            forall|k: int| lo <= k < hi ==> #[trigger] s@[k] == old(s)@[k],
        decreases hi - lo,
    {
        hi = hi - 1;
        let ghost cur = s@;
        let a = s[lo];
        let b = s[hi];
        s[lo] = b;
        s[hi] = a;
        proof {
            assert(s@ =~= cur.update(lo as int, cur[hi as int]).update(hi as int, cur[lo as int]));
            lemma_swap_to_multiset(cur, lo as int, hi as int);
            assert(s@.subrange(0, from as int) =~= cur.subrange(0, from as int));
        }
        lo = lo + 1;
    }
    proof {
        if lo + 1 == hi {
            assert(len - 1 - lo + from == lo);
        }
    }
}

/// Rearranges the elements into the lexicographically next permutation of
/// the same values. Returns `false`, changing nothing, exactly when the
/// slice is non-increasing, that is, already the last arrangement.
pub fn next_permutation(s: &mut [i64]) -> (r: bool)
    ensures
        final(s)@.len() == old(s)@.len(),
        r == !non_increasing(old(s)@),
        !r ==> final(s)@ == old(s)@,
        r ==> final(s)@.to_multiset() == old(s)@.to_multiset() && lex_gt(final(s)@, old(s)@),
{
    let n = s.len();
    if n <= 1 {
        return false;
    }
    let mut i: usize = n - 1;
    while i > 0 && s[i - 1] >= s[i]
        invariant
            n == s@.len(),
            s@ == old(s)@,
            i <= n - 1,
            forall|k: int| i <= k < n - 1 ==> #[trigger] s@[k] >= s@[k + 1],
        decreases i,
    {
        i = i - 1;
    }
    if i == 0 {
        proof {
            assert forall|p: int, q: int| 0 <= p <= q < s@.len() implies s@[p] >= s@[q] by {
                lemma_adj_chain_ge(s@, p, q);
            }
        }
        return false;
    }
    let mut j: usize = n - 1;
    while s[j] <= s[i - 1]
        invariant
            n == s@.len(),
            s@ == old(s)@,
            0 < i <= j <= n - 1,
            s@[i as int] > s@[i - 1],
        decreases j,
    {
        j = j - 1;
    }
    let ghost orig = s@;
    let a = s[i - 1];
    let b = s[j];
    s[i - 1] = b;
    s[j] = a;
    proof {
        assert(s@ =~= orig.update(i - 1, orig[j as int]).update(j as int, orig[i - 1]));
        lemma_swap_to_multiset(orig, i - 1, j as int);
    }
    let ghost mid = s@;
    reverse_range(s, i);
    proof {
        assert(s@.subrange(0, i - 1) =~= orig.subrange(0, i - 1));
        assert(s@[i - 1] == mid.subrange(0, i as int)[i - 1]);
        assert(s@[i - 1] > orig[i - 1]);
        assert(lex_gt(s@, orig));
    }
    true
}

/// Rearranges the elements into the lexicographically previous permutation
/// of the same values. Returns `false`, changing nothing, exactly when the
/// slice is non-decreasing, that is, already the first arrangement.
pub fn prev_permutation(s: &mut [i64]) -> (r: bool)
    ensures
        final(s)@.len() == old(s)@.len(),
        r == !non_decreasing(old(s)@),
        !r ==> final(s)@ == old(s)@,
        r ==> final(s)@.to_multiset() == old(s)@.to_multiset() && lex_gt(old(s)@, final(s)@),
{
    let n = s.len();
    if n <= 1 {
        return false;
    }
    let mut i: usize = n - 1;
    while i > 0 && s[i - 1] <= s[i]
        invariant
            n == s@.len(),
            s@ == old(s)@,
            i <= n - 1,
            forall|k: int| i <= k < n - 1 ==> #[trigger] s@[k] <= s@[k + 1],
        decreases i,
    {
        i = i - 1;
    }
    if i == 0 {
        proof {
            assert forall|p: int, q: int| 0 <= p <= q < s@.len() implies s@[p] <= s@[q] by {
                lemma_adj_chain_le(s@, p, q);
            }
        }
        return false;
    }
    let ghost orig = s@;
    reverse_range(s, i);
    let ghost mid = s@;
    proof {
        assert(mid[i - 1] == mid.subrange(0, i as int)[i - 1]);
        assert(mid[i - 1] == orig[i - 1]);
        assert(mid[n - 1] == orig[i as int]);
    }
    let mut j: usize = n - 1;
    while s[j - 1] < s[i - 1]
        invariant
            n == s@.len(),
            s@ == mid,
            0 < i <= j <= n - 1,
            s@[i - 1] == orig[i - 1],
            s@[j as int] < s@[i - 1],
        decreases j,
    {
        j = j - 1;
    }
    let ghost before = s@;
    let a = s[i - 1];
    let b = s[j];
    s[i - 1] = b;
    s[j] = a;
    proof {
        assert(s@ =~= before.update(i - 1, before[j as int]).update(j as int, before[i - 1]));
        lemma_swap_to_multiset(before, i - 1, j as int);
        assert(orig.subrange(0, i - 1) =~= s@.subrange(0, i - 1));
        assert(orig[i - 1] > s@[i - 1]);
        assert(lex_gt(orig, s@));
    }
    true
}

} // verus!
