//! How two elements of an array compare, as the element type's own
//! `PartialOrd` decides it. The array functions that order, search or pick
//! extremes state their contracts through these.

use vstd::prelude::*;
use vstd::std_specs::cmp::PartialOrdSpec;
use core::cmp::Ordering;

verus! {

/// Whether the element type's comparison is known to decide as its
/// specification says. It is for the integer types; for other types the
/// contracts that rest on it say nothing of what a comparison found.
pub open spec fn order_known<T: PartialOrd>() -> bool {
    T::obeys_partial_cmp_spec()
}

/// Whether `a` comes before `b`: `a < b`.
pub open spec fn below<T: PartialOrd>(a: T, b: T) -> bool {
    a.partial_cmp_spec(&b) == Some(Ordering::Less)
}

/// Whether `a` comes after `b`: `a > b`.
pub open spec fn above<T: PartialOrd>(a: T, b: T) -> bool {
    a.partial_cmp_spec(&b) == Some(Ordering::Greater)
}

/// Whether `a` comes before `b` or is level with it: `a <= b`.
pub open spec fn at_most<T: PartialOrd>(a: T, b: T) -> bool {
    a.partial_cmp_spec(&b) matches Some(Ordering::Less | Ordering::Equal)
}

/// Whether `<` and `>` each order the elements weakly: neither holds both
/// ways between two elements, and whatever one element is below (above),
/// every other element is below (above) too or stands above (below) it; so
/// a least and a greatest element exist, as they do for numbers.
pub open spec fn orders_weakly<T: PartialOrd>(s: Seq<T>) -> bool {
    &&& forall|i: int, j: int|
        0 <= i < s.len() && 0 <= j < s.len() && #[trigger] below(s[i], s[j]) ==> !below(s[j], s[i])
    &&& forall|i: int, j: int|
        0 <= i < s.len() && 0 <= j < s.len() && #[trigger] above(s[i], s[j]) ==> !above(s[j], s[i])
    &&& forall|i: int, j: int, k: int|
        #![trigger below(s[i], s[k]), s[j]]
        0 <= i < s.len() && 0 <= j < s.len() && 0 <= k < s.len() && below(s[i], s[k]) ==> below(s[i], s[j])
            || below(s[j], s[k])
    &&& forall|i: int, j: int, k: int|
        #![trigger above(s[i], s[k]), s[j]]
        0 <= i < s.len() && 0 <= j < s.len() && 0 <= k < s.len() && above(s[i], s[k]) ==> above(s[i], s[j])
            || above(s[j], s[k])
}

/// Asks the element type's `<`.
pub fn less<T: PartialOrd>(a: &T, b: &T) -> (r: bool)
    ensures
        order_known::<T>() ==> r == below(*a, *b),
{
    *a < *b
}

/// Asks the element type's `>`.
pub fn greater<T: PartialOrd>(a: &T, b: &T) -> (r: bool)
    ensures
        order_known::<T>() ==> r == above(*a, *b),
{
    *a > *b
}

/// Asks the element type's `<=`.
pub fn no_greater<T: PartialOrd>(a: &T, b: &T) -> (r: bool)
    ensures
        order_known::<T>() ==> r == at_most(*a, *b),
{
    *a <= *b
}

/// The second of two elements when it is below the first, else the first.
pub fn smaller<'a, T: PartialOrd>(a: &'a T, b: &'a T) -> (r: &'a T)
    ensures
        r == a || r == b,
        order_known::<T>() ==> *r == if below(*b, *a) { *b } else { *a },
{
    if less(b, a) { b } else { a }
}

/// The second of two elements when it is above the first, else the first.
pub fn larger<'a, T: PartialOrd>(a: &'a T, b: &'a T) -> (r: &'a T)
    ensures
        r == a || r == b,
        order_known::<T>() ==> *r == if above(*b, *a) { *b } else { *a },
{
    if greater(b, a) { b } else { a }
}

} // verus!
