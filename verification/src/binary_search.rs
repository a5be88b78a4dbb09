//! Binary search bounds over sorted slices of `i64`.

use vstd::prelude::*;

verus! {

/// The slice is sorted in non-decreasing order.
pub open spec fn sorted(s: Seq<i64>) -> bool {
    forall|i: int, j: int| 0 <= i <= j < s.len() ==> s[i] <= s[j]
}

/// Returns the index of the first element of the sorted slice `s` that is
/// greater than or equal to `value`, or `s.len()` if there is none.
pub fn lower_bound(s: &[i64], value: &i64) -> (r: usize)
    requires
        sorted(s@),
    ensures
        r <= s@.len(),
        forall|i: int| 0 <= i < r ==> s@[i] < *value,
        forall|i: int| r <= i < s@.len() ==> s@[i] >= *value,
{
    if s.len() == 0 {
        return 0;
    }
    if s[0] >= *value {
        return 0;
    }
    let mut lb: usize = 0;
    let mut ub: usize = s.len();
    while ub - lb > 1
        invariant
            sorted(s@),
            lb < ub <= s@.len(),
            s@[lb as int] < *value,
            ub < s@.len() ==> s@[ub as int] >= *value,
        decreases ub - lb,
    {
        let mid = lb + (ub - lb) / 2;
        if s[mid] < *value {
            lb = mid;
        } else {
            ub = mid;
        }
    }
    lb + 1
}

/// Returns the index of the first element of the sorted slice `s` that is
/// strictly greater than `value`, or `s.len()` if there is none.
pub fn upper_bound(s: &[i64], value: &i64) -> (r: usize)
    requires
        sorted(s@),
    ensures
        r <= s@.len(),
        forall|i: int| 0 <= i < r ==> s@[i] <= *value,
        forall|i: int| r <= i < s@.len() ==> s@[i] > *value,
{
    if s.len() == 0 {
        return 0;
    }
    if s[0] > *value {
        return 0;
    }
    let mut lb: usize = 0;
    let mut ub: usize = s.len();
    while ub - lb > 1
        invariant
            sorted(s@),
            lb < ub <= s@.len(),
            s@[lb as int] <= *value,
            ub < s@.len() ==> s@[ub as int] > *value,
        decreases ub - lb,
    {
        let mid = lb + (ub - lb) / 2;
        if s[mid] <= *value {
            lb = mid;
        } else {
            ub = mid;
        }
    }
    lb + 1
}

} // verus!
