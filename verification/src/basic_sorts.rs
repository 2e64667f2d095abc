//! Quadratic sorting algorithms: bubble sort (plain, and optimized with an
//! early exit), selection sort, and insertion sort.
//!
//! Every sort rearranges the vector into ascending order while keeping
//! exactly the same elements, stated as equality of multisets.

use vstd::prelude::*;
use crate::search::is_sorted;

verus! {

broadcast use vstd::seq_lib::group_to_multiset_ensures;

/// Exchanges the elements at positions `i` and `j`.
pub(crate) fn swap_elements(arr: &mut Vec<i32>, i: usize, j: usize)
    requires
        i < old(arr).len(),
        j < old(arr).len(),
    ensures
        final(arr)@ == old(arr)@.update(i as int, old(arr)@[j as int]).update(
            j as int,
            old(arr)@[i as int],
        ),
        final(arr)@.to_multiset() == old(arr)@.to_multiset(),
        final(arr)@.len() == old(arr)@.len(),
{
    let ghost orig = arr@;
    let a = arr[i];
    let b = arr[j];
    arr[i] = b;
    arr[j] = a;
    proof {
        broadcast use vstd::multiset::group_multiset_axioms;

        if i == j {
            assert(arr@ =~= orig);
        } else {
            assert(orig.contains(orig[i as int]));
            assert(orig.contains(orig[j as int]));
            assert(arr@.to_multiset() =~= orig.to_multiset());
        }
    }
}

/// In a sequence where every element is at most its successor, any earlier
/// element is at most any later one.
pub(crate) proof fn lemma_adjacent_le(s: Seq<i32>, a: int, b: int)
    requires
        forall|k: int| 0 <= k < s.len() - 1 ==> #[trigger] s[k] <= s[k + 1],
        0 <= a <= b < s.len(),
    ensures
        s[a] <= s[b],
    decreases b - a,
{
    if a < b {
        lemma_adjacent_le(s, a, b - 1);
        assert(s[b - 1] <= s[b]);
    }
}

/// A sequence whose adjacent pairs are in order is sorted.
pub(crate) proof fn lemma_adjacent_implies_sorted(s: Seq<i32>)
    requires
        forall|k: int| 0 <= k < s.len() - 1 ==> #[trigger] s[k] <= s[k + 1],
    ensures
        is_sorted(s),
{
    assert forall|a: int, b: int| 0 <= a <= b < s.len() implies s[a] <= s[b] by {
        lemma_adjacent_le(s, a, b);
    }
}

/// Bubble sort: repeatedly compares adjacent elements and exchanges those
/// that are out of order, floating the largest remaining element to the end
/// of the unsorted prefix on every pass.
pub fn bubble_sort(arr: &mut Vec<i32>)
    requires
        old(arr).len() >= 1,
    ensures
        is_sorted(final(arr)@),
        final(arr)@.to_multiset() == old(arr)@.to_multiset(),
        final(arr)@.len() == old(arr)@.len(),
{
    let ghost orig = arr@;
    let n = arr.len();
    let last_idx = n - 1;
    let mut i: usize = 0;
    while i < last_idx
        invariant
            arr@.len() == n,
            n >= 1,
            last_idx == n - 1,
            0 <= i <= last_idx,
            arr@.to_multiset() == orig.to_multiset(),
            forall|a: int, b: int| 0 <= a < n - i <= b < n ==> arr@[a] <= arr@[b],
            forall|a: int, b: int| n - i <= a <= b < n ==> arr@[a] <= arr@[b],
        decreases last_idx - i,
    {
        let m = last_idx - i;
        let mut j: usize = 0;
        while j < m
            invariant
                arr@.len() == n,
                m == n - 1 - i,
                0 <= j <= m,
                m < n,
                arr@.to_multiset() == orig.to_multiset(),
                forall|a: int, b: int| 0 <= a < m + 1 <= b < n ==> arr@[a] <= arr@[b],
                forall|a: int, b: int| m + 1 <= a <= b < n ==> arr@[a] <= arr@[b],
                forall|k: int| 0 <= k <= j ==> arr@[k] <= arr@[j as int],
            decreases m - j,
        {
            if arr[j] > arr[j + 1] {
                swap_elements(arr, j, j + 1);
            }
            j = j + 1;
        }
        i = i + 1;
    }
}

/// Bubble sort that stops as soon as one pass makes no exchange, since the
/// vector is then already sorted.
pub fn bubble_sort_optimized(arr: &mut Vec<i32>)
    requires
        old(arr).len() >= 1,
        old(arr)@.len() * old(arr)@.len() <= usize::MAX,
    ensures
        is_sorted(final(arr)@),
        final(arr)@.to_multiset() == old(arr)@.to_multiset(),
        final(arr)@.len() == old(arr)@.len(),
{
    bubble_sort_optimized_with_count(arr);
}

/// The counting variant behind [`bubble_sort_optimized`]: sorts the vector
/// and reports how many comparisons and how many exchanges it made. On a
/// vector that is already sorted it stops after a single pass of
/// `len - 1` comparisons without exchanging anything.
pub fn bubble_sort_optimized_with_count(arr: &mut Vec<i32>) -> (counts: (usize, usize))
    requires
        old(arr).len() >= 1,
        old(arr)@.len() * old(arr)@.len() <= usize::MAX,
    ensures
        is_sorted(final(arr)@),
        final(arr)@.to_multiset() == old(arr)@.to_multiset(),
        final(arr)@.len() == old(arr)@.len(),
        is_sorted(old(arr)@) ==> counts == ((old(arr)@.len() - 1) as usize, 0usize),
{
    let ghost orig = arr@;
    let n = arr.len();
    let last_idx = n - 1;
    let mut comparisons: usize = 0;
    let mut swaps: usize = 0;
    let mut i: usize = 0;
    while i < last_idx
        invariant_except_break
            arr@.len() == n,
            n >= 1,
            n * n <= usize::MAX,
            last_idx == n - 1,
            0 <= i <= last_idx,
            arr@.to_multiset() == orig.to_multiset(),
            comparisons <= i * last_idx,
            swaps <= comparisons,
            forall|a: int, b: int| 0 <= a < n - i <= b < n ==> arr@[a] <= arr@[b],
            forall|a: int, b: int| n - i <= a <= b < n ==> arr@[a] <= arr@[b],
            swaps == 0 ==> arr@ == orig,
            is_sorted(orig) ==> i == 0 && comparisons == 0 && swaps == 0,
        ensures
            arr@.len() == n,
            arr@.to_multiset() == orig.to_multiset(),
            is_sorted(arr@),
            is_sorted(orig) ==> comparisons == n - 1 && swaps == 0,
        decreases last_idx - i,
    {
        let m = last_idx - i;
        let mut swapped = false;
        let mut j: usize = 0;
        while j < m
            invariant
                arr@.len() == n,
                m == n - 1 - i,
                0 <= j <= m,
                m < n,
                i <= last_idx,
                last_idx == n - 1,
                n * n <= usize::MAX,
                arr@.to_multiset() == orig.to_multiset(),
                comparisons <= i * last_idx + j,
                swaps <= comparisons,
                forall|a: int, b: int| 0 <= a < m + 1 <= b < n ==> arr@[a] <= arr@[b],
                forall|a: int, b: int| m + 1 <= a <= b < n ==> arr@[a] <= arr@[b],
                forall|k: int| 0 <= k <= j ==> arr@[k] <= arr@[j as int],
                !swapped ==> forall|k: int| 0 <= k < j ==> #[trigger] arr@[k] <= arr@[k + 1],
                swapped ==> swaps >= 1,
                swaps == 0 ==> arr@ == orig,
                is_sorted(orig) ==> i == 0 && comparisons == j && swaps == 0 && !swapped,
            decreases m - j,
        {
            proof {
                assert(i * last_idx + j < n * n) by (nonlinear_arith)
                    requires
                        i < last_idx,
                        j < m,
                        m == n - 1 - i,
                        last_idx == n - 1,
                        n >= 1,
                ;
            }
            comparisons = comparisons + 1;
            if arr[j] > arr[j + 1] {
                swapped = true;
                swap_elements(arr, j, j + 1);
                swaps = swaps + 1;
            }
            j = j + 1;
        }
        if !swapped {
            proof {
                lemma_adjacent_implies_sorted(arr@);
            }
            break ;
        }
        i = i + 1;
        proof {
            assert(comparisons <= i * last_idx) by (nonlinear_arith)
                requires
                    comparisons <= (i - 1) * last_idx + (n - 1 - (i - 1)),
                    i >= 1,
                    i <= last_idx,
                    last_idx == n - 1,
            ;
        }
    }
    if last_idx == 0 {
        proof {
            lemma_adjacent_implies_sorted(arr@);
        }
    }
    (comparisons, swaps)
}

/// Selection sort: on every pass, finds the smallest element of the unsorted
/// suffix and moves it to the front of that suffix.
pub fn selection_sort(arr: &mut Vec<i32>)
    requires
        old(arr).len() >= 1,
    ensures
        is_sorted(final(arr)@),
        final(arr)@.to_multiset() == old(arr)@.to_multiset(),
        final(arr)@.len() == old(arr)@.len(),
{
    let ghost orig = arr@;
    let n = arr.len();
    let mut i: usize = 0;
    while i < n - 1
        invariant
            arr@.len() == n,
            n >= 1,
            0 <= i <= n,
            arr@.to_multiset() == orig.to_multiset(),
            forall|a: int, b: int| 0 <= a <= b < i ==> arr@[a] <= arr@[b],
            forall|a: int, b: int| 0 <= a < i <= b < n ==> arr@[a] <= arr@[b],
        decreases n - i,
    {
        let mut min_idx = i;
        let mut j = i + 1;
        while j < n
            invariant
                arr@.len() == n,
                i <= min_idx < n,
                i < j <= n,
                forall|k: int| i <= k < j ==> arr@[min_idx as int] <= arr@[k],
            decreases n - j,
        {
            if arr[j] < arr[min_idx] {
                min_idx = j;
            }
            j = j + 1;
        }
        if min_idx != i {
            swap_elements(arr, i, min_idx);
        }
        i = i + 1;
    }
}

/// Insertion sort: grows a sorted prefix by shifting each next element left
/// until it sits in order.
pub fn insertion_sort(arr: &mut Vec<i32>)
    ensures
        is_sorted(final(arr)@),
        final(arr)@.to_multiset() == old(arr)@.to_multiset(),
        final(arr)@.len() == old(arr)@.len(),
{
    let ghost orig = arr@;
    let n = arr.len();
    let mut i: usize = 1;
    while i < n
        invariant
            arr@.len() == n,
            n == 0 || 1 <= i <= n,
            arr@.to_multiset() == orig.to_multiset(),
            forall|a: int, b: int| 0 <= a <= b < i ==> arr@[a] <= arr@[b],
        decreases n - i,
    {
        let mut j = i;
        while j > 0 && arr[j - 1] > arr[j]
            invariant
                arr@.len() == n,
                0 <= j <= i < n,
                arr@.to_multiset() == orig.to_multiset(),
                forall|a: int, b: int|
                    0 <= a <= b <= i && a != j && b != j ==> arr@[a] <= arr@[b],
                forall|b: int| j < b <= i ==> arr@[j as int] <= arr@[b],
            decreases j,
        {
            swap_elements(arr, j - 1, j);
            j = j - 1;
        }
        i = i + 1;
    }
}

} // verus!
