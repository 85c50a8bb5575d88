//! What the trees ask of the type of their values: a comparison that is a
//! strict total order and agrees with equality, and a `clone` that returns
//! its argument.

use std::cmp::Ordering;
use vstd::prelude::*;
use vstd::std_specs::cmp::{OrdSpec, PartialOrdSpec};

verus! {

/// `a` compares less than `b`.
pub open spec fn lt<T: Ord>(a: T, b: T) -> bool {
    a.cmp_spec(&b) == Ordering::Less
}

/// The comparison of `T` is a strict total order: `cmp` computes `cmp_spec`
/// and the comparison operators agree with it, two values compare equal
/// exactly when they are the same value, comparing the other way round
/// mirrors the answer, and "less than" is transitive.
pub open spec fn total_order<T: Ord>() -> bool {
    &&& T::obeys_cmp_spec()
    &&& T::obeys_partial_cmp_spec()
    &&& forall|a: T, b: T|
        #![trigger a.partial_cmp_spec(&b)]
        a.partial_cmp_spec(&b) == Some(a.cmp_spec(&b))
    &&& forall|a: T, b: T|
        #![trigger a.cmp_spec(&b)]
        a.cmp_spec(&b) == Ordering::Equal <==> a == b
    &&& forall|a: T, b: T|
        #![trigger a.cmp_spec(&b)]
        a.cmp_spec(&b) == Ordering::Greater <==> b.cmp_spec(&a) == Ordering::Less
    &&& forall|a: T, b: T, c: T|
        #![trigger lt(a, b), lt(b, c)]
        lt(a, b) && lt(b, c) ==> lt(a, c)
}

/// Cloning a `T` yields the value that was cloned.
pub open spec fn exact_clone<T: Clone>() -> bool {
    forall|a: T, b: T| #[trigger] call_ensures(T::clone, (&a,), b) ==> a == b
}

/// Every element of `s` is less than every later one.
pub open spec fn ascending<T: Ord>(s: Seq<T>) -> bool {
    forall|i: int, j: int| 0 <= i < j < s.len() ==> lt(s[i], s[j])
}

/// Every element of `s` is less than `bound`.
pub open spec fn all_below<T: Ord>(s: Seq<T>, bound: T) -> bool {
    forall|i: int| 0 <= i < s.len() ==> lt(s[i], bound)
}

/// Every element of `s` is greater than `bound`.
pub open spec fn all_above<T: Ord>(s: Seq<T>, bound: T) -> bool {
    forall|i: int| 0 <= i < s.len() ==> lt(bound, s[i])
}

/// Of two values exactly one holds: the first is less, they are equal, or
/// the second is less.
pub proof fn lemma_trichotomy<T: Ord>(a: T, b: T)
    requires
        total_order::<T>(),
    ensures
        lt(a, b) || a == b || lt(b, a),
        !(lt(a, b) && a == b),
        !(lt(b, a) && a == b),
        !(lt(a, b) && lt(b, a)),
{
    let forth = a.cmp_spec(&b);
    let back = b.cmp_spec(&a);
    assert(forth == Ordering::Less || forth == Ordering::Equal || forth == Ordering::Greater);
    assert(back == Ordering::Less || back == Ordering::Equal || back == Ordering::Greater);
}

/// "Less than" is transitive.
pub proof fn lemma_lt_transitive<T: Ord>(a: T, b: T, c: T)
    requires
        total_order::<T>(),
        lt(a, b),
        lt(b, c),
    ensures
        lt(a, c),
{
}

/// The integer types are totally ordered and clone exactly.
pub proof fn lemma_integers_qualify()
    ensures
        total_order::<u8>() && exact_clone::<u8>(),
        total_order::<u16>() && exact_clone::<u16>(),
        total_order::<u32>() && exact_clone::<u32>(),
        total_order::<u64>() && exact_clone::<u64>(),
        total_order::<u128>() && exact_clone::<u128>(),
        total_order::<usize>() && exact_clone::<usize>(),
        total_order::<i8>() && exact_clone::<i8>(),
        total_order::<i16>() && exact_clone::<i16>(),
        total_order::<i32>() && exact_clone::<i32>(),
        total_order::<i64>() && exact_clone::<i64>(),
        total_order::<i128>() && exact_clone::<i128>(),
        total_order::<isize>() && exact_clone::<isize>(),
{
}

/// A sequence put together from an ascending left part, a middle value above
/// all of the left part and below all of the right part, and an ascending
/// right part is ascending; and every ascending sequence splits that way at
/// each of its positions.
pub proof fn lemma_ascending_join<T: Ord>(left: Seq<T>, mid: T, right: Seq<T>)
    requires
        total_order::<T>(),
    ensures
        ascending(left + seq![mid] + right) <==> (ascending(left) && ascending(right)
            && all_below(left, mid) && all_above(right, mid)),
{
    let whole = left + seq![mid] + right;
    let n = left.len() as int;
    if ascending(whole) {
        assert forall|i: int, j: int| 0 <= i < j < left.len() implies lt(left[i], left[j]) by {
            assert(whole[i] == left[i] && whole[j] == left[j]);
        }
        assert forall|i: int, j: int| 0 <= i < j < right.len() implies lt(right[i], right[j]) by {
            assert(whole[n + 1 + i] == right[i] && whole[n + 1 + j] == right[j]);
        }
        assert forall|i: int| 0 <= i < left.len() implies lt(left[i], mid) by {
            assert(whole[i] == left[i] && whole[n] == mid);
        }
        assert forall|i: int| 0 <= i < right.len() implies lt(mid, right[i]) by {
            assert(whole[n + 1 + i] == right[i] && whole[n] == mid);
        }
    }
    if ascending(left) && ascending(right) && all_below(left, mid) && all_above(right, mid) {
        assert forall|i: int, j: int| 0 <= i < j < whole.len() implies lt(whole[i], whole[j]) by {
            if j < n {
                assert(whole[i] == left[i] && whole[j] == left[j]);
            } else if j == n {
                assert(whole[i] == left[i] && whole[j] == mid);
            } else if i < n {
                assert(whole[i] == left[i] && whole[j] == right[j - n - 1]);
                lemma_lt_transitive(left[i], mid, right[j - n - 1]);
            } else if i == n {
                assert(whole[i] == mid && whole[j] == right[j - n - 1]);
            } else {
                assert(whole[i] == right[i - n - 1] && whole[j] == right[j - n - 1]);
            }
        }
    }
}

} // verus!
