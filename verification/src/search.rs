//! Linear and binary search over slices.

use vstd::prelude::*;
use vstd::std_specs::cmp::PartialEqSpec;

verus! {

/// Whether `s` is sorted in ascending order.
pub open spec fn is_sorted(s: Seq<i32>) -> bool {
    forall|i: int, j: int| 0 <= i <= j < s.len() ==> s[i] <= s[j]
}

/// Scans the slice from the front and returns the index of the first
/// element equal to `target`, or `None` when no element is.
pub fn linear_search<T: PartialEq>(arr: &[T], target: &T) -> (r: Option<usize>)
    requires
        T::obeys_eq_spec(),
    ensures
        match r {
            Some(i) => i < arr@.len() && arr@[i as int].eq_spec(target) && (forall|j: int|
                0 <= j < i ==> !arr@[j].eq_spec(target)),
            None => forall|j: int| 0 <= j < arr@.len() ==> !arr@[j].eq_spec(target),
        },
{
    let n = arr.len();
    let mut i: usize = 0;
    while i < n
        invariant
            n == arr@.len(),
            0 <= i <= n,
            T::obeys_eq_spec(),
            forall|j: int| 0 <= j < i ==> !arr@[j].eq_spec(target),
        decreases n - i,
    {
        if &arr[i] == target {
            return Some(i);
        }
        i = i + 1;
    }
    None
}

/// Binary search, iterative: returns the index of an element equal to
/// `target`, or `None` when the sorted slice holds no such element.
pub fn binary_search(arr: &[i32], target: &i32) -> (r: Option<usize>)
    requires
        is_sorted(arr@),
        arr@.len() <= usize::MAX / 2,
    ensures
        match r {
            Some(i) => i < arr@.len() && arr@[i as int] == *target,
            None => forall|j: int| 0 <= j < arr@.len() ==> arr@[j] != *target,
        },
{
    if arr.len() == 0 {
        return None;
    }
    let mut left: usize = 0;
    let mut right: usize = arr.len() - 1;
    while left <= right
        invariant
            is_sorted(arr@),
            arr@.len() <= usize::MAX / 2,
            left <= arr@.len(),
            right < arr@.len(),
            forall|j: int| 0 <= j < left ==> arr@[j] < *target,
            forall|j: int| right < j < arr@.len() ==> arr@[j] > *target,
        decreases right + 1 - left,
    {
        let mid = (left + right) / 2;
        if arr[mid] < *target {
            left = mid + 1;
        } else if arr[mid] > *target {
            if mid == 0 {
                return None;
            }
            right = mid - 1;
        } else {
            return Some(mid);
        }
    }
    None
}

/// Binary search, recursive: returns the index of an element equal to
/// `target`, or `None` when the sorted slice holds no such element.
pub fn binary_search_recursive(arr: &[i32], target: &i32) -> (r: Option<usize>)
    requires
        is_sorted(arr@),
        arr@.len() <= usize::MAX / 2,
    ensures
        match r {
            Some(i) => i < arr@.len() && arr@[i as int] == *target,
            None => forall|j: int| 0 <= j < arr@.len() ==> arr@[j] != *target,
        },
{
    if arr.is_empty() {
        return None;
    }
    search_helper(arr, target, 0, arr.len() - 1)
}

/// The recursive worker behind [`binary_search_recursive`]: searches the
/// index range `left ..= right` of the sorted slice.
fn search_helper(arr: &[i32], target: &i32, left: usize, right: usize) -> (r: Option<usize>)
    requires
        is_sorted(arr@),
        arr@.len() <= usize::MAX / 2,
        right < arr@.len(),
        left <= arr@.len(),
        forall|j: int| 0 <= j < left ==> arr@[j] != *target,
        forall|j: int| right < j < arr@.len() ==> arr@[j] != *target,
    ensures
        match r {
            Some(i) => i < arr@.len() && arr@[i as int] == *target,
            None => forall|j: int| 0 <= j < arr@.len() ==> arr@[j] != *target,
        },
    decreases right + 1 - left,
{
    if left > right {
        return None;
    }
    let mid = (left + right) / 2;
    if arr[mid] == *target {
        return Some(mid);
    }
    if arr[mid] < *target {
        return search_helper(arr, target, mid + 1, right);
    } else {
        if let Some(new_right) = mid.checked_sub(1) {
            return search_helper(arr, target, left, new_right);
        } else {
            return None;
        }
    }
}

} // verus!

