//! Sorting with a caller-supplied comparison, and a small record type for
//! exercising it.

use vstd::prelude::*;
use core::cmp::Ordering;

verus! {

broadcast use vstd::seq_lib::group_to_multiset_ensures;

/// Whether the comparison `f` can only place `a` at or before `b`: no
/// outcome it admits for `(a, b)` is `Greater`.
pub open spec fn places_le<F: Fn(&i32, &i32) -> Ordering>(f: F, a: i32, b: i32) -> bool {
    forall|o: Ordering| call_ensures(f, (&a, &b), o) ==> o != Ordering::Greater
}

/// Whether the comparison `f` behaves as a comparison should: its outcome
/// is a function of its arguments, an argument pair it places strictly
/// after one another it places before in the swapped order, and the
/// at-or-before relation it induces is transitive.
pub open spec fn comparator_lawful<F: Fn(&i32, &i32) -> Ordering>(f: F) -> bool {
    &&& forall|a: i32, b: i32, o1: Ordering, o2: Ordering|
        call_ensures(f, (&a, &b), o1) && call_ensures(f, (&a, &b), o2) ==> o1 == o2
    &&& forall|a: i32, b: i32|
        call_ensures(f, (&a, &b), Ordering::Greater) ==> #[trigger] places_le(f, b, a)
    &&& forall|a: i32, b: i32, c: i32|
        places_le(f, a, b) && #[trigger] places_le(f, b, c) ==> #[trigger] places_le(f, a, c)
}

/// Whether `s` is arranged so that the comparison `f` places every element
/// at or before every later one.
pub open spec fn sorted_by<F: Fn(&i32, &i32) -> Ordering>(s: Seq<i32>, f: F) -> bool {
    forall|i: int, j: int| 0 <= i < j < s.len() ==> places_le(f, s[i], s[j])
}

/// Sorts the vector with a caller-supplied three-way comparison, by
/// insertion: each element is shifted left past every neighbour that the
/// comparison places after it.
///
/// The result holds exactly the elements of the input, and whenever the
/// comparison is lawful the result is arranged as the comparison directs.
pub fn sort_by<F: Fn(&i32, &i32) -> Ordering>(arr: &mut Vec<i32>, compare: F)
    requires
        forall|x: &i32, y: &i32| #[trigger] call_requires(compare, (x, y)),
    ensures
        final(arr)@.to_multiset() == old(arr)@.to_multiset(),
        final(arr)@.len() == old(arr)@.len(),
        comparator_lawful(compare) ==> sorted_by(final(arr)@, compare),
{
    let ghost orig = arr@;
    let n = arr.len();
    let mut i: usize = 1;
    while i < n
        invariant
            arr@.len() == n,
            n == 0 || 1 <= i <= n,
            arr@.to_multiset() == orig.to_multiset(),
            forall|x: &i32, y: &i32| #[trigger] call_requires(compare, (x, y)),
            comparator_lawful(compare) ==> forall|a: int, b: int|
                0 <= a < b < i ==> places_le(compare, arr@[a], arr@[b]),
        decreases n - i,
    {
        let mut j = i;
        let mut done = false;
        while j > 0 && !done
            invariant
                arr@.len() == n,
                0 <= j <= i < n,
                arr@.to_multiset() == orig.to_multiset(),
                forall|x: &i32, y: &i32| #[trigger] call_requires(compare, (x, y)),
                comparator_lawful(compare) ==> forall|a: int, b: int|
                    0 <= a < b <= i && a != j && b != j ==> places_le(compare, arr@[a], arr@[b]),
                comparator_lawful(compare) ==> forall|b: int|
                    j < b <= i ==> places_le(compare, arr@[j as int], arr@[b]),
                comparator_lawful(compare) && done ==> (j == 0 || places_le(
                    compare,
                    arr@[j - 1],
                    arr@[j as int],
                )),
            decreases j + (if done {
                0int
            } else {
                1int
            }),
        {
            let ordering = compare(&arr[j - 1], &arr[j]);
            match ordering {
                Ordering::Greater => {
                    crate::basic_sorts::swap_elements(arr, j - 1, j);
                    j = j - 1;
                },
                _ => {
                    done = true;
                },
            }
        }
        proof {
            if comparator_lawful(compare) {
                assert forall|a: int, b: int| 0 <= a < b <= i implies places_le(
                    compare,
                    arr@[a],
                    arr@[b],
                ) by {
                    if a == j {
                        assert(places_le(compare, arr@[a], arr@[b]));
                    } else if b == j {
                        assert(j > 0);
                        assert(places_le(compare, arr@[j - 1], arr@[j as int]));
                        if a < j - 1 {
                            assert(places_le(compare, arr@[a], arr@[j - 1]));
                        }
                    }
                }
            }
        }
        i = i + 1;
    }
}

/// A record with an ordering key and an identity tag, ordered by the key
/// alone, so that two records can compare as neither less nor greater while
/// still being distinguishable.
#[derive(Debug, Clone, PartialEq, Eq, Structural)]
pub struct Item {
    pub key: i32,
    pub id: usize,
}

impl PartialOrd for Item {
    fn partial_cmp(&self, other: &Self) -> (r: Option<Ordering>) {
        if self.key < other.key {
            Some(Ordering::Less)
        } else if self.key > other.key {
            Some(Ordering::Greater)
        } else {
            Some(Ordering::Equal)
        }
    }
}

impl vstd::std_specs::cmp::PartialOrdSpecImpl for Item {
    open spec fn obeys_partial_cmp_spec() -> bool {
        true
    }

    open spec fn partial_cmp_spec(&self, other: &Item) -> Option<Ordering> {
        if self.key < other.key {
            Some(Ordering::Less)
        } else if self.key > other.key {
            Some(Ordering::Greater)
        } else {
            Some(Ordering::Equal)
        }
    }
}

} // verus!
