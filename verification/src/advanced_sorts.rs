//! Divide-and-conquer sorting algorithms: merge sort and quick sort.
//!
//! Both sorts work on an index range of the vector, leave everything outside
//! the range untouched, and rearrange the range into ascending order while
//! keeping exactly the same elements.

use vstd::prelude::*;
use crate::search::is_sorted;
use crate::basic_sorts::swap_elements;

verus! {

broadcast use vstd::seq_lib::group_to_multiset_ensures;

/// Two sequences that hold the same elements and agree outside an index
/// range also hold the same elements inside that range.
proof fn lemma_equal_outside_range(s1: Seq<i32>, s2: Seq<i32>, lo: int, hi: int)
    requires
        s1.len() == s2.len(),
        0 <= lo <= hi <= s1.len(),
        s1.to_multiset() == s2.to_multiset(),
        forall|k: int| 0 <= k < lo ==> s1[k] == s2[k],
        forall|k: int| hi <= k < s1.len() ==> s1[k] == s2[k],
    ensures
        s1.subrange(lo, hi).to_multiset() == s2.subrange(lo, hi).to_multiset(),
{
    broadcast use vstd::multiset::group_multiset_axioms;

    let pre = s1.subrange(0, lo);
    let post = s1.subrange(hi, s1.len() as int);
    let sub1 = s1.subrange(lo, hi);
    let sub2 = s2.subrange(lo, hi);
    assert(s2.subrange(0, lo) =~= pre);
    assert(s2.subrange(hi, s2.len() as int) =~= post);
    assert(s1 =~= (pre + sub1) + post);
    assert(s2 =~= (pre + sub2) + post);
    vstd::seq_lib::lemma_multiset_commutative(pre + sub1, post);
    vstd::seq_lib::lemma_multiset_commutative(pre, sub1);
    vstd::seq_lib::lemma_multiset_commutative(pre + sub2, post);
    vstd::seq_lib::lemma_multiset_commutative(pre, sub2);
    assert(sub1.to_multiset() =~= sub2.to_multiset()) by {
        assert(forall|x: i32| #[trigger] sub1.to_multiset().count(x) == s1.to_multiset().count(x)
            - pre.to_multiset().count(x) - post.to_multiset().count(x));
        assert(forall|x: i32| #[trigger] sub2.to_multiset().count(x) == s2.to_multiset().count(x)
            - pre.to_multiset().count(x) - post.to_multiset().count(x));
    }
}

/// A property that holds of every element of a sequence also holds of every
/// element of a rearrangement of it.
proof fn lemma_multiset_preserves_pred(s1: Seq<i32>, s2: Seq<i32>, pred: spec_fn(i32) -> bool)
    requires
        s1.to_multiset() == s2.to_multiset(),
        forall|k: int| 0 <= k < s1.len() ==> pred(s1[k]),
    ensures
        forall|k: int| 0 <= k < s2.len() ==> pred(s2[k]),
{
    assert forall|k: int| 0 <= k < s2.len() implies pred(s2[k]) by {
        assert(s2.contains(s2[k]));
        assert(s2.to_multiset().count(s2[k]) > 0);
        assert(s1.to_multiset().count(s2[k]) > 0);
        assert(s1.contains(s2[k]));
    }
}

/// Copies the index range `lo .. hi` out into a fresh vector.
fn copy_range(arr: &Vec<i32>, lo: usize, hi: usize) -> (r: Vec<i32>)
    requires
        lo <= hi <= arr@.len(),
    ensures
        r@ == arr@.subrange(lo as int, hi as int),
{
    let mut r: Vec<i32> = Vec::new();
    let mut k = lo;
    while k < hi
        invariant
            lo <= k <= hi <= arr@.len(),
            r@ =~= arr@.subrange(lo as int, k as int),
        decreases hi - k,
    {
        r.push(arr[k]);
        assert(r@ =~= arr@.subrange(lo as int, k + 1));
        k = k + 1;
    }
    r
}

/// Writes the elements of `src` over the index range that starts at `lo`.
fn write_range(arr: &mut Vec<i32>, lo: usize, src: &Vec<i32>)
    requires
        lo + src@.len() <= old(arr)@.len(),
    ensures
        final(arr)@.len() == old(arr)@.len(),
        final(arr)@.subrange(lo as int, lo + src@.len()) == src@,
        forall|k: int| 0 <= k < lo ==> final(arr)@[k] == old(arr)@[k],
        forall|k: int| lo + src@.len() <= k < old(arr)@.len() ==> final(arr)@[k] == old(arr)@[k],
{
    let n = src.len();
    let total = arr.len();
    let mut k: usize = 0;
    while k < n
        invariant
            n == src@.len(),
            lo + n <= total,
            total == arr@.len(),
            arr@.len() == old(arr)@.len(),
            0 <= k <= n,
            forall|t: int| 0 <= t < k ==> arr@[lo + t] == src@[t],
            forall|t: int| 0 <= t < lo ==> arr@[t] == old(arr)@[t],
            forall|t: int| lo + n <= t < old(arr)@.len() ==> arr@[t] == old(arr)@[t],
        decreases n - k,
    {
        arr[lo + k] = src[k];
        k = k + 1;
    }
    assert(final(arr)@.subrange(lo as int, lo + src@.len()) =~= src@);
}

/// Merges two sorted vectors into one sorted vector that holds exactly the
/// elements of both.
fn merge(left: &Vec<i32>, right: &Vec<i32>) -> (r: Vec<i32>)
    requires
        is_sorted(left@),
        is_sorted(right@),
        left@.len() + right@.len() <= usize::MAX,
    ensures
        is_sorted(r@),
        r@.len() == left@.len() + right@.len(),
        r@.to_multiset() == (left@ + right@).to_multiset(),
{
    broadcast use vstd::seq_lib::lemma_multiset_commutative;
    broadcast use vstd::multiset::group_multiset_axioms;

    let mut r: Vec<i32> = Vec::new();
    let mut i: usize = 0;
    let mut j: usize = 0;
    while i < left.len() || j < right.len()
        invariant
            0 <= i <= left@.len(),
            0 <= j <= right@.len(),
            is_sorted(left@),
            is_sorted(right@),
            is_sorted(r@),
            r@.len() == i + j,
            r@.to_multiset() == (left@.take(i as int) + right@.take(j as int)).to_multiset(),
            forall|k: int| 0 <= k < r@.len() && i < left@.len() ==> r@[k] <= left@[i as int],
            forall|k: int| 0 <= k < r@.len() && j < right@.len() ==> r@[k] <= right@[j as int],
        decreases left@.len() + right@.len() - i - j,
    {
        let take_left = if j >= right.len() {
            true
        } else if i >= left.len() {
            false
        } else {
            left[i] <= right[j]
        };
        if take_left {
            r.push(left[i]);
            proof {
                assert(left@.take(i + 1) =~= left@.take(i as int).push(left@[i as int]));
                vstd::seq_lib::lemma_multiset_commutative(left@.take(i + 1), right@.take(j as int));
                vstd::seq_lib::lemma_multiset_commutative(
                    left@.take(i as int),
                    right@.take(j as int),
                );
                assert((left@.take(i + 1) + right@.take(j as int)).to_multiset() =~= (left@.take(
                    i as int,
                ) + right@.take(j as int)).to_multiset().insert(left@[i as int]));
            }
            i = i + 1;
        } else {
            r.push(right[j]);
            proof {
                assert(right@.take(j + 1) =~= right@.take(j as int).push(right@[j as int]));
                vstd::seq_lib::lemma_multiset_commutative(left@.take(i as int), right@.take(j + 1));
                vstd::seq_lib::lemma_multiset_commutative(
                    left@.take(i as int),
                    right@.take(j as int),
                );
                assert((left@.take(i as int) + right@.take(j + 1)).to_multiset() =~= (left@.take(
                    i as int,
                ) + right@.take(j as int)).to_multiset().insert(right@[j as int]));
            }
            j = j + 1;
        }
    }
    proof {
        assert(left@.take(left@.len() as int) =~= left@);
        assert(right@.take(right@.len() as int) =~= right@);
    }
    r
}

/// Merge sort: sorts the whole vector into ascending order, keeping exactly
/// the same elements.
pub fn merge_sort(arr: &mut Vec<i32>)
    ensures
        is_sorted(final(arr)@),
        final(arr)@.to_multiset() == old(arr)@.to_multiset(),
        final(arr)@.len() == old(arr)@.len(),
{
    let n = arr.len();
    merge_sort_range(arr, 0, n);
    assert(old(arr)@.subrange(0, n as int) =~= old(arr)@);
    assert(final(arr)@.subrange(0, n as int) =~= final(arr)@);
}

/// Sorts the index range `lo .. hi` by splitting it in half, sorting both
/// halves recursively, and merging them.
fn merge_sort_range(arr: &mut Vec<i32>, lo: usize, hi: usize)
    requires
        lo <= hi <= old(arr)@.len(),
    ensures
        final(arr)@.len() == old(arr)@.len(),
        is_sorted(final(arr)@.subrange(lo as int, hi as int)),
        final(arr)@.subrange(lo as int, hi as int).to_multiset() == old(arr)@.subrange(
            lo as int,
            hi as int,
        ).to_multiset(),
        forall|k: int| 0 <= k < lo ==> final(arr)@[k] == old(arr)@[k],
        forall|k: int| hi <= k < old(arr)@.len() ==> final(arr)@[k] == old(arr)@[k],
    decreases hi - lo,
{
    broadcast use vstd::seq_lib::lemma_multiset_commutative;
    broadcast use vstd::multiset::group_multiset_axioms;

    if hi - lo <= 1 {
        return ;
    }
    let ghost s0 = arr@;
    let mid = lo + (hi - lo) / 2;
    merge_sort_range(arr, lo, mid);
    let ghost s1 = arr@;
    merge_sort_range(arr, mid, hi);
    let ghost s2 = arr@;
    proof {
        assert(s2.subrange(lo as int, mid as int) =~= s1.subrange(lo as int, mid as int));
        assert(s1.subrange(mid as int, hi as int) =~= s0.subrange(mid as int, hi as int));
    }
    let left = copy_range(arr, lo, mid);
    let right = copy_range(arr, mid, hi);
    let merged = merge(&left, &right);
    write_range(arr, lo, &merged);
    proof {
        assert(final(arr)@.subrange(lo as int, hi as int) =~= merged@);
        assert(s0.subrange(lo as int, hi as int) =~= s0.subrange(lo as int, mid as int)
            + s0.subrange(mid as int, hi as int));
        assert((left@ + right@).to_multiset() == s0.subrange(lo as int, hi as int).to_multiset());
    }
}

/// Quick sort: sorts the whole vector into ascending order, keeping exactly
/// the same elements.
pub fn quick_sort(arr: &mut Vec<i32>)
    ensures
        is_sorted(final(arr)@),
        final(arr)@.to_multiset() == old(arr)@.to_multiset(),
        final(arr)@.len() == old(arr)@.len(),
{
    let n = arr.len();
    quick_sort_range(arr, 0, n);
    assert(old(arr)@.subrange(0, n as int) =~= old(arr)@);
    assert(final(arr)@.subrange(0, n as int) =~= final(arr)@);
}

/// Sorts the index range `lo .. hi` by partitioning around a pivot and
/// sorting both sides recursively.
fn quick_sort_range(arr: &mut Vec<i32>, lo: usize, hi: usize)
    requires
        lo <= hi <= old(arr)@.len(),
    ensures
        final(arr)@.len() == old(arr)@.len(),
        is_sorted(final(arr)@.subrange(lo as int, hi as int)),
        final(arr)@.subrange(lo as int, hi as int).to_multiset() == old(arr)@.subrange(
            lo as int,
            hi as int,
        ).to_multiset(),
        forall|k: int| 0 <= k < lo ==> final(arr)@[k] == old(arr)@[k],
        forall|k: int| hi <= k < old(arr)@.len() ==> final(arr)@[k] == old(arr)@[k],
    decreases hi - lo,
{
    if hi - lo <= 1 {
        return ;
    }
    let ghost s0 = arr@;
    let p = partition_range(arr, lo, hi);
    let ghost s1 = arr@;
    let ghost pivot = s1[p as int];
    quick_sort_range(arr, lo, p);
    let ghost s2 = arr@;
    quick_sort_range(arr, p + 1, hi);
    let ghost s3 = arr@;
    proof {
        lemma_quick_sort_stitch(s0, s1, s2, s3, lo as int, p as int, hi as int);
    }
}

/// Assembles the contract of [`quick_sort_range`] from the partition step
/// (`s0` to `s1`) and the two recursive calls (`s1` to `s2` on the left of
/// the pivot, `s2` to `s3` on its right).
proof fn lemma_quick_sort_stitch(
    s0: Seq<i32>,
    s1: Seq<i32>,
    s2: Seq<i32>,
    s3: Seq<i32>,
    lo: int,
    p: int,
    hi: int,
)
    requires
        s0.len() == s1.len() == s2.len() == s3.len(),
        0 <= lo <= p < hi <= s0.len(),
        // partition step
        s1.subrange(lo, hi).to_multiset() == s0.subrange(lo, hi).to_multiset(),
        forall|k: int| 0 <= k < lo ==> s1[k] == s0[k],
        forall|k: int| hi <= k < s0.len() ==> s1[k] == s0[k],
        forall|k: int| lo <= k < p ==> s1[k] <= s1[p],
        forall|k: int| p < k < hi ==> s1[k] > s1[p],
        // left recursive call
        is_sorted(s2.subrange(lo, p)),
        s2.subrange(lo, p).to_multiset() == s1.subrange(lo, p).to_multiset(),
        forall|k: int| 0 <= k < lo ==> s2[k] == s1[k],
        forall|k: int| p <= k < s1.len() ==> s2[k] == s1[k],
        // right recursive call
        is_sorted(s3.subrange(p + 1, hi)),
        s3.subrange(p + 1, hi).to_multiset() == s2.subrange(p + 1, hi).to_multiset(),
        forall|k: int| 0 <= k < p + 1 ==> s3[k] == s2[k],
        forall|k: int| hi <= k < s2.len() ==> s3[k] == s2[k],
    ensures
        is_sorted(s3.subrange(lo, hi)),
        s3.subrange(lo, hi).to_multiset() == s0.subrange(lo, hi).to_multiset(),
        forall|k: int| 0 <= k < lo ==> s3[k] == s0[k],
        forall|k: int| hi <= k < s0.len() ==> s3[k] == s0[k],
{
    broadcast use vstd::seq_lib::group_to_multiset_ensures;
    broadcast use vstd::seq_lib::lemma_multiset_commutative;
    broadcast use vstd::multiset::group_multiset_axioms;

    let pivot = s1[p];
    assert(s3[p] == pivot);
    // The left range after sorting still holds only elements at most the pivot.
    assert(s3.subrange(lo, p) =~= s2.subrange(lo, p));
    lemma_multiset_preserves_pred(
        s1.subrange(lo, p),
        s2.subrange(lo, p),
        |x: i32| x <= pivot,
    );
    // The right range after sorting still holds only elements above the pivot.
    assert(s2.subrange(p + 1, hi) =~= s1.subrange(p + 1, hi));
    lemma_multiset_preserves_pred(
        s2.subrange(p + 1, hi),
        s3.subrange(p + 1, hi),
        |x: i32| x > pivot,
    );
    // Sortedness of the whole range.
    assert forall|a: int, b: int| lo <= a <= b < hi implies s3[a] <= s3[b] by {
        let sub_left = s3.subrange(lo, p);
        let sub_right = s3.subrange(p + 1, hi);
        if a < p {
            assert(s3[a] == sub_left[a - lo]);
            assert(s3[a] <= pivot);
        }
        if b < p {
            assert(s3[b] == sub_left[b - lo]);
        }
        if a > p {
            assert(s3[a] == sub_right[a - (p + 1)]);
        }
        if b > p {
            assert(s3[b] == sub_right[b - (p + 1)]);
            assert(s3[b] > pivot);
        }
    }
    // The range is a rearrangement of what it was before the partition step.
    assert(s3.subrange(lo, hi) =~= s3.subrange(lo, p) + seq![s3[p]] + s3.subrange(p + 1, hi));
    assert(s1.subrange(lo, hi) =~= s1.subrange(lo, p) + seq![s1[p]] + s1.subrange(p + 1, hi));
    assert(s3.subrange(lo, hi).to_multiset() =~= s1.subrange(lo, hi).to_multiset()) by {
        assert(forall|x: i32|
            (s3.subrange(lo, p) + seq![s3[p]] + s3.subrange(p + 1, hi)).to_multiset().count(x)
                == s3.subrange(lo, p).to_multiset().count(x) + seq![s3[p]].to_multiset().count(x)
                + s3.subrange(p + 1, hi).to_multiset().count(x));
        assert(forall|x: i32|
            (s1.subrange(lo, p) + seq![s1[p]] + s1.subrange(p + 1, hi)).to_multiset().count(x)
                == s1.subrange(lo, p).to_multiset().count(x) + seq![s1[p]].to_multiset().count(x)
                + s1.subrange(p + 1, hi).to_multiset().count(x));
    }
}

/// Partitions the index range `lo .. hi` around its last element: after the
/// call, the element that was last stands at the returned index, everything
/// before it within the range is at most it, and everything after it within
/// the range is above it.
fn partition_range(arr: &mut Vec<i32>, lo: usize, hi: usize) -> (p: usize)
    requires
        lo < hi <= old(arr)@.len(),
    ensures
        lo <= p < hi,
        final(arr)@.len() == old(arr)@.len(),
        final(arr)@.subrange(lo as int, hi as int).to_multiset() == old(arr)@.subrange(
            lo as int,
            hi as int,
        ).to_multiset(),
        forall|k: int| 0 <= k < lo ==> final(arr)@[k] == old(arr)@[k],
        forall|k: int| hi <= k < old(arr)@.len() ==> final(arr)@[k] == old(arr)@[k],
        forall|k: int| lo <= k < p ==> final(arr)@[k] <= final(arr)@[p as int],
        forall|k: int| p < k < hi ==> final(arr)@[k] > final(arr)@[p as int],
{
    let ghost orig = arr@;
    let n = arr.len();
    let pivot_index = hi - 1;
    let mut i = lo;
    let mut j = lo;
    while j < pivot_index
        invariant
            arr@.len() == n,
            lo <= i <= j <= pivot_index,
            pivot_index == hi - 1,
            hi <= n,
            arr@.to_multiset() == orig.to_multiset(),
            arr@[pivot_index as int] == orig[pivot_index as int],
            forall|k: int| 0 <= k < lo ==> arr@[k] == orig[k],
            forall|k: int| hi <= k < n ==> arr@[k] == orig[k],
            forall|k: int| lo <= k < i ==> arr@[k] <= arr@[pivot_index as int],
            forall|k: int| i <= k < j ==> arr@[k] > arr@[pivot_index as int],
        decreases pivot_index - j,
    {
        if arr[j] <= arr[pivot_index] {
            swap_elements(arr, i, j);
            i = i + 1;
        }
        j = j + 1;
    }
    swap_elements(arr, i, pivot_index);
    proof {
        lemma_equal_outside_range(arr@, orig, lo as int, hi as int);
    }
    i
}

/// Whether `d` lies in the binary-heap subtree rooted at `r`, where the
/// children of node `p` are `2p + 1` and `2p + 2`.
spec fn in_subtree(r: int, d: int) -> bool
    decreases (if d >= 0 { d } else { 0 }),
{
    if d == r {
        true
    } else if d <= 0 || d <= r {
        false
    } else {
        in_subtree(r, (d - 1) / 2)
    }
}

/// Whether the first `n` positions of `s` satisfy the max-heap ordering:
/// every node is at most its parent.
pub open spec fn is_heap_prefix(s: Seq<i32>, n: int) -> bool {
    forall|c: int| 1 <= c < n ==> s[(c - 1) / 2] >= #[trigger] s[c]
}

/// In a heap, the root is the greatest element.
proof fn lemma_heap_root_max(s: Seq<i32>, n: int, c: int)
    requires
        is_heap_prefix(s, n),
        n <= s.len(),
        0 <= c < n,
    ensures
        s[0] >= s[c],
    decreases c,
{
    if c > 0 {
        lemma_heap_root_max(s, n, (c - 1) / 2);
    }
}

/// Every node of a subtree sits at or below its root.
proof fn lemma_subtree_ge(r: int, d: int)
    requires
        in_subtree(r, d),
    ensures
        d >= r,
    decreases (if d >= 0 { d } else { 0 }),
{
    if d != r && d > 0 && d > r {
        lemma_subtree_ge(r, (d - 1) / 2);
    }
}

/// A node other than the root belongs to a subtree exactly when its parent
/// does.
proof fn lemma_subtree_step(r: int, d: int)
    requires
        0 <= r < d,
    ensures
        in_subtree(r, d) == in_subtree(r, (d - 1) / 2),
{
}

/// A child node belongs to its parent's subtree.
proof fn lemma_child_in_subtree(i: int, c: int)
    requires
        0 <= i,
        c == 2 * i + 1 || c == 2 * i + 2,
    ensures
        in_subtree(i, c),
{
    assert(in_subtree(i, i));
    assert((c - 1) / 2 == i);
}

/// Restores the heap ordering under node `i`, assuming every other node of
/// the first `n` positions already respects its parent: the node sinks
/// toward the leaves until both its children are at most it.
///
/// Positions outside the subtree of `i`, and positions from `n` on, do not
/// change; the vector keeps exactly the same elements; and the value that
/// ends up at `i` is bounded by what stood at `i` or its children before.
#[verifier::rlimit(60)]
fn heapify(arr: &mut Vec<i32>, n: usize, i: usize)
    requires
        i < n <= old(arr)@.len(),
        n <= usize::MAX / 2,
        forall|c: int|
            1 <= c < n && (c - 1) / 2 != i && (c - 1) / 2 >= i ==> old(arr)@[(c - 1) / 2]
                >= #[trigger] old(arr)@[c],
    ensures
        final(arr)@.len() == old(arr)@.len(),
        final(arr)@.to_multiset() == old(arr)@.to_multiset(),
        forall|c: int|
            1 <= c < n && (c - 1) / 2 >= i ==> final(arr)@[(c - 1) / 2]
                >= #[trigger] final(arr)@[c],
        forall|k: int|
            0 <= k < old(arr)@.len() && (k >= n || !in_subtree(i as int, k)) ==> (
            #[trigger] final(arr)@[k]) == old(arr)@[k],
        final(arr)@[i as int] == old(arr)@[i as int] || (2 * i + 1 < n && final(arr)@[i as int]
            <= old(arr)@[2 * i + 1]) || (2 * i + 2 < n && final(arr)@[i as int] <= old(arr)@[2 * i
            + 2]),
    decreases n - i,
{
    let mut largest = i;
    let left = 2 * i + 1;
    let right = 2 * i + 2;
    if left < n && arr[left] > arr[largest] {
        largest = left;
    }
    if right < n && arr[right] > arr[largest] {
        largest = right;
    }
    if largest != i {
        let ghost s0 = arr@;
        swap_elements(arr, i, largest);
        let ghost s1 = arr@;
        proof {
            lemma_child_in_subtree(i as int, largest as int);
            assert forall|c: int|
                1 <= c < n && (c - 1) / 2 != largest && (c - 1) / 2 >= largest implies s1[(c - 1)
                / 2] >= #[trigger] s1[c] by {
                assert((c - 1) / 2 >= largest > i);
                assert(c >= 2 * largest + 1 > largest);
                assert(s1[c] == s0[c]);
                assert(s1[(c - 1) / 2] == s0[(c - 1) / 2]);
            }
        }
        heapify(arr, n, largest);
        proof {
            let fin = arr@;
            assert(!in_subtree(largest as int, i as int)) by {
                if in_subtree(largest as int, i as int) {
                    lemma_subtree_ge(largest as int, i as int);
                }
            }
            assert(fin[i as int] == s1[i as int]);
            // nothing outside the subtree of `i` moved
            assert forall|k: int|
                0 <= k < s0.len() && (k >= n || !in_subtree(i as int, k)) implies (
            #[trigger] fin[k]) == s0[k] by {
                if k < n {
                    assert(k != i);
                    assert(k != largest);
                    assert(!in_subtree(largest as int, k)) by {
                        if in_subtree(largest as int, k) {
                            lemma_subtree_up(i as int, largest as int, k);
                        }
                    }
                    assert(fin[k] == s1[k]);
                    assert(s1[k] == s0[k]);
                }
            }
            // the parent edges from `i` hold afterwards
            assert forall|c: int| 1 <= c < n && (c - 1) / 2 >= i implies fin[(c - 1) / 2]
                >= #[trigger] fin[c] by {
                let p = (c - 1) / 2;
                if p == i {
                    if c == largest {
                        assert(fin[largest as int] <= s1[largest as int] || (2 * largest + 1 < n
                            && fin[largest as int] <= s1[2 * largest + 1]) || (2 * largest + 2 < n
                            && fin[largest as int] <= s1[2 * largest + 2]));
                        if 2 * largest + 1 < n {
                            assert(s1[2 * largest + 1] == s0[2 * largest + 1]);
                            assert(s0[(2 * largest) / 2] >= s0[2 * largest + 1]);
                        }
                        if 2 * largest + 2 < n {
                            assert(s1[2 * largest + 2] == s0[2 * largest + 2]);
                            assert(s0[(2 * largest + 1) / 2] >= s0[2 * largest + 2]);
                        }
                        assert(fin[i as int] == s1[i as int] == s0[largest as int]);
                        assert(fin[c] <= fin[i as int]);
                    } else {
                        assert(c == 2 * i + 1 || c == 2 * i + 2);
                        assert(!in_subtree(largest as int, c)) by {
                            if in_subtree(largest as int, c) {
                                lemma_subtree_ge(largest as int, c);
                                lemma_subtree_step(largest as int, c);
                                lemma_subtree_ge(largest as int, (c - 1) / 2);
                            }
                        }
                        assert(fin[c] == s1[c]);
                        assert(s1[c] == s0[c]);
                        assert(fin[i as int] == s0[largest as int]);
                    }
                } else {
                    assert(p > i);
                    if in_subtree(largest as int, c) {
                        lemma_subtree_ge(largest as int, c);
                        if c == largest {
                            assert((c - 1) / 2 == i);
                        } else {
                            lemma_subtree_step(largest as int, c);
                            lemma_subtree_ge(largest as int, p);
                        }
                    } else {
                        assert(!in_subtree(largest as int, p)) by {
                            if in_subtree(largest as int, p) {
                                lemma_subtree_ge(largest as int, p);
                                lemma_subtree_step(largest as int, c);
                            }
                        }
                        assert(in_subtree(largest as int, largest as int));
                        assert(c != i && c != largest && p != i && p != largest);
                        assert(fin[c] == s1[c] && fin[p] == s1[p]);
                        assert(s1[c] == s0[c] && s1[p] == s0[p]);
                        assert(s0[p] >= s0[c]);
                    }
                }
            }
        }
    }
}

/// Inside a subtree of `m`, which itself hangs under `r`, every node is in
/// the subtree of `r`.
proof fn lemma_subtree_up(r: int, m: int, d: int)
    requires
        0 <= r,
        in_subtree(r, m),
        in_subtree(m, d),
    ensures
        in_subtree(r, d),
    decreases (if d >= 0 { d } else { 0 }),
{
    if d != m && d > 0 && d > m {
        lemma_subtree_up(r, m, (d - 1) / 2);
    }
}

/// Heap sort: builds a max-heap over the vector, then repeatedly swaps the
/// root behind the shrinking heap, so the vector ends in ascending order
/// with exactly the same elements.
#[verifier::rlimit(60)]
pub fn heap_sort(arr: &mut Vec<i32>)
    requires
        old(arr)@.len() <= usize::MAX / 2,
    ensures
        is_sorted(final(arr)@),
        final(arr)@.to_multiset() == old(arr)@.to_multiset(),
        final(arr)@.len() == old(arr)@.len(),
{
    let ghost orig = arr@;
    let n = arr.len();
    if n <= 1 {
        return ;
    }
    // build the heap from the last parent down to the root
    let mut i = n / 2;
    while i > 0
        invariant
            arr@.len() == n,
            n <= usize::MAX / 2,
            0 <= i <= n / 2,
            arr@.to_multiset() == orig.to_multiset(),
            forall|c: int|
                1 <= c < n && (c - 1) / 2 >= i ==> arr@[(c - 1) / 2] >= #[trigger] arr@[c],
        decreases i,
    {
        i = i - 1;
        heapify(arr, n, i);
    }
    // repeatedly move the greatest remaining element behind the heap
    let mut size = n;
    while size > 1
        invariant
            arr@.len() == n,
            n <= usize::MAX / 2,
            1 <= size <= n,
            arr@.to_multiset() == orig.to_multiset(),
            is_heap_prefix(arr@, size as int),
            forall|a: int, b: int| size <= a <= b < n ==> arr@[a] <= arr@[b],
            forall|a: int, b: int| 0 <= a < size <= b < n ==> arr@[a] <= arr@[b],
        decreases size,
    {
        let ghost s0 = arr@;
        proof {
            assert forall|c: int| 0 <= c < size implies s0[0] >= #[trigger] s0[c] by {
                lemma_heap_root_max(s0, size as int, c);
            }
        }
        size = size - 1;
        swap_elements(arr, 0, size);
        let ghost s1 = arr@;
        if size > 1 {
            heapify(arr, size, 0);
        }
        proof {
            let fin = arr@;
            assert(forall|k: int| size <= k < n ==> fin[k] == s1[k]);
            lemma_equal_outside_range(s1, fin, 0, size as int);
            lemma_multiset_preserves_pred(
                s1.subrange(0, size as int),
                fin.subrange(0, size as int),
                |x: i32| x <= s1[size as int],
            );
            assert forall|a: int, b: int| 0 <= a < size <= b < n implies fin[a] <= fin[b] by {
                assert(fin[a] == fin.subrange(0, size as int)[a]);
                assert(fin[a] <= s1[size as int]);
            }
        }
    }
}

} // verus!
