//! Arrays. Nail arrays are immutable, so every operation here hands back a
//! new array (or a value read out of one) and leaves the one it was given as
//! it was.
//!
//! The element type is generic. Where an element is copied rather than moved,
//! the contract says the copy is a clone of the element it was made from
//! (`cloned`), which for the element types Nail has (numbers, strings) is the
//! element itself.

use vstd::prelude::*;
use vstd::string::StringExecFns;
use vstd::pervasive::VecAdditionalExecFns;
use vstd::std_specs::cmp::PartialEqSpec;
use vstd::std_specs::cmp::OrdSpec;
use vstd::std_specs::cmp::PartialOrdSpec;
use core::cmp::Ordering;
use rayon::iter::{IntoParallelRefIterator, ParallelIterator};
use rayon::slice::ParallelSliceMut;
use rand::seq::SliceRandom;
use crate::std_lib::rank::{order_known, below, above, at_most, less, greater, no_greater, smaller, larger, orders_weakly};
use crate::text::{int_text, int_to_text, usize_to_text};
use crate::std_lib::array_functional::{range, range_exclusive, range_of};

verus! {

/// Whether `r` holds a clone of each element of `s`, in the same places.
pub open spec fn clones_of<T: Clone>(r: Seq<T>, s: Seq<T>) -> bool {
    &&& r.len() == s.len()
    &&& forall|k: int| 0 <= k < r.len() ==> cloned(#[trigger] s[k], r[k])
}

/// The elements of an array of arrays, one after another.
pub open spec fn flat<T>(s: Seq<Vec<T>>) -> Seq<T>
    decreases s.len(),
{
    if s.len() == 0 {
        Seq::empty()
    } else {
        flat(s.drop_last()) + s.last()@
    }
}

/// How many of the first elements a count asks for, the count cut down to
/// the length and a count at or below zero asking for none.
pub open spec fn clamp_count(n: i64, len: nat) -> nat {
    if n <= 0 {
        0
    } else if n >= len {
        len
    } else {
        n as nat
    }
}

/// The message an index error carries: a head, a number, a tail, a number.
pub open spec fn two_number_text(head: Seq<char>, a: int, mid: Seq<char>, b: int) -> Seq<char> {
    head + int_text(a) + mid + int_text(b)
}

/// Builds a message from a head, a number, a middle and a length.
fn two_number_message(head: &str, a: i64, mid: &str, b: usize) -> (r: String)
    ensures
        r@ == two_number_text(head@, a as int, mid@, b as int),
{
    let mut m = String::from_str(head);
    m.append(int_to_text(a).as_str());
    m.append(mid);
    m.append(usize_to_text(b).as_str());
    m
}

/// Builds a message from a head and a number.
fn number_message(head: &str, a: i64) -> (r: String)
    ensures
        r@ == head@ + int_text(a as int),
{
    let mut m = String::from_str(head);
    m.append(int_to_text(a).as_str());
    m
}

/// The number of elements.
pub fn len<T>(arr: &Vec<T>) -> (r: i64)
    ensures
        r == arr@.len() as i64,
{
    arr.len() as i64
}

/// The array with one more element at the end.
pub fn push<T: Clone>(arr: Vec<T>, item: T) -> (r: Vec<T>)
    ensures
        r@ == arr@.push(item),
{
    let mut out = arr;
    out.push(item);
    out
}

/// The array without its last element. Nail arrays are immutable, so this
/// never changes the array it was given; an empty array is an error.
pub fn pop<T: Clone>(arr: Vec<T>) -> (r: Result<Vec<T>, String>)
    ensures
        arr@.len() == 0 ==> (r matches Err(e) && e@ == "array_pop: cannot pop from an empty array"@),
        arr@.len() > 0 ==> (r matches Ok(v) && v@ == arr@.drop_last()),
{
    let mut out = arr;
    match out.pop() {
        None => Err(String::from_str("array_pop: cannot pop from an empty array")),
        Some(_) => Ok(out),
    }
}

/// The array back to front.
pub fn reverse<T: Clone>(arr: Vec<T>) -> (r: Vec<T>)
    ensures
        r@ == arr@.reverse(),
{
    let ghost whole = arr@;
    let mut rest = arr;
    let mut out: Vec<T> = Vec::new();
    while rest.len() > 0
        invariant
            rest@.len() <= whole.len(),
            rest@ == whole.take(rest@.len() as int),
            out@ =~= Seq::new((whole.len() - rest@.len()) as nat, |k: int| whole[whole.len() - 1 - k]),
        decreases rest@.len(),
    {
        let ghost before = rest@;
        let x = rest.pop().unwrap();
        proof {
            assert(x == whole[before.len() - 1]);
            assert(rest@ =~= whole.take(rest@.len() as int));
        }
        out.push(x);
    }
    proof { assert(out@ =~= whole.reverse()); }
    out
}

/// The elements of the first array, then those of the second.
pub fn concat<T: Clone>(first: Vec<T>, second: Vec<T>) -> (r: Vec<T>)
    ensures
        r@ == first@ + second@,
{
    let mut out = first;
    let mut tail = second;
    out.append(&mut tail);
    out
}

/// The element at an index, which may be neither negative nor past the end.
pub fn get<T: Clone>(arr: &Vec<T>, index: i64) -> (r: Result<T, String>)
    ensures
        index < 0 ==> (r matches Err(e) && e@ == "array_get: index cannot be negative, got "@ + int_text(index as int)),
        0 <= index < arr@.len() ==> (r matches Ok(x) && cloned(arr@[index as int], x)),
        index >= 0 && index >= arr@.len() ==> (r matches Err(e)
            && e@ == two_number_text("array_get: index "@, index as int, " is out of bounds for an array of length "@, arr@.len() as int)),
{
    if index < 0 {
        return Err(number_message("array_get: index cannot be negative, got ", index));
    }
    if index as u64 >= arr.len() as u64 {
        return Err(two_number_message("array_get: index ", index, " is out of bounds for an array of length ", arr.len()));
    }
    Ok(arr[index as usize].clone())
}

/// The first element; an empty array has none.
pub fn first<T: Clone>(arr: &Vec<T>) -> (r: Result<T, String>)
    ensures
        arr@.len() == 0 ==> (r matches Err(e) && e@ == "array_first: cannot get the first element of an empty array"@),
        arr@.len() > 0 ==> (r matches Ok(x) && cloned(arr@[0], x)),
{
    if arr.len() == 0 {
        return Err(String::from_str("array_first: cannot get the first element of an empty array"));
    }
    Ok(arr[0].clone())
}

/// The last element; an empty array has none.
pub fn last<T: Clone>(arr: &Vec<T>) -> (r: Result<T, String>)
    ensures
        arr@.len() == 0 ==> (r matches Err(e) && e@ == "array_last: cannot get the last element of an empty array"@),
        arr@.len() > 0 ==> (r matches Ok(x) && cloned(arr@.last(), x)),
{
    if arr.len() == 0 {
        return Err(String::from_str("array_last: cannot get the last element of an empty array"));
    }
    Ok(arr[arr.len() - 1].clone())
}

/// The middle element - the lower-index of the two middles when the length is
/// even. An empty array is an error, the same as `first` and `last`.
pub fn middle<T: Clone>(arr: &Vec<T>) -> (r: Result<T, String>)
    ensures
        arr@.len() == 0 ==> (r matches Err(e) && e@ == "array_middle: cannot get the middle element of an empty array"@),
        arr@.len() > 0 ==> (r matches Ok(x) && cloned(arr@[(arr@.len() - 1) / 2], x)),
{
    if arr.len() == 0 {
        return Err(String::from_str("array_middle: cannot get the middle element of an empty array"));
    }
    Ok(arr[(arr.len() - 1) / 2].clone())
}

/// Clones of the elements from `from` up to `to`.
fn clone_range<T: Clone>(arr: &Vec<T>, from: usize, to: usize) -> (r: Vec<T>)
    requires
        from <= to <= arr@.len(),
    ensures
        clones_of(r@, arr@.subrange(from as int, to as int)),
{
    let mut out: Vec<T> = Vec::new();
    let mut i = from;
    while i < to
        invariant
            from <= i <= to <= arr@.len(),
            clones_of(out@, arr@.subrange(from as int, i as int)),
        decreases to - i,
    {
        let x = arr[i].clone();
        out.push(x);
        i = i + 1;
    }
    out
}

/// The elements from `start` up to `end`. Negative indices, indices past the
/// end and a start past the end are errors, in that order.
pub fn slice<T: Clone>(arr: &Vec<T>, start: i64, end: i64) -> (r: Result<Vec<T>, String>)
    ensures
        (start < 0 || end < 0) ==> (r matches Err(e)
            && e@ == "array_slice: indices cannot be negative, got "@ + int_text(start as int) + ".."@ + int_text(end as int)),
        (0 <= start && 0 <= end && (start > arr@.len() || end > arr@.len())) ==> (r matches Err(e)
            && e@ == "array_slice: range "@ + int_text(start as int) + ".."@ + int_text(end as int)
                + " is out of bounds for an array of length "@ + int_text(arr@.len() as int)),
        (0 <= start <= arr@.len() && 0 <= end <= arr@.len() && start > end) ==> (r matches Err(e)
            && e@ == "array_slice: start index "@ + int_text(start as int) + " is greater than end index "@ + int_text(end as int)),
        (0 <= start <= end <= arr@.len()) ==> (r matches Ok(v) && clones_of(v@, arr@.subrange(start as int, end as int))),
{
    if start < 0 || end < 0 {
        let mut m = String::from_str("array_slice: indices cannot be negative, got ");
        m.append(int_to_text(start).as_str());
        m.append("..");
        m.append(int_to_text(end).as_str());
        return Err(m);
    }
    if start as u64 > arr.len() as u64 || end as u64 > arr.len() as u64 {
        let mut m = String::from_str("array_slice: range ");
        m.append(int_to_text(start).as_str());
        m.append("..");
        m.append(int_to_text(end).as_str());
        m.append(" is out of bounds for an array of length ");
        m.append(usize_to_text(arr.len()).as_str());
        return Err(m);
    }
    if start > end {
        let mut m = String::from_str("array_slice: start index ");
        m.append(int_to_text(start).as_str());
        m.append(" is greater than end index ");
        m.append(int_to_text(end).as_str());
        return Err(m);
    }
    Ok(clone_range(arr, start as usize, end as usize))
}

/// How many of the first elements a count asks for, as a length.
fn count_within(n: i64, len: usize) -> (r: usize)
    ensures
        r == clamp_count(n, len as nat),
{
    if n <= 0 {
        0
    } else if n as u64 >= len as u64 {
        len
    } else {
        n as usize
    }
}

/// The first `n` elements, or all of them when there are fewer; none when
/// `n` is zero or below.
pub fn take<T: Clone>(arr: Vec<T>, n: i64) -> (r: Vec<T>)
    ensures
        r@ == arr@.take(clamp_count(n, arr@.len()) as int),
{
    let count = count_within(n, arr.len());
    let mut out = arr;
    out.truncate(count);
    out
}

/// All but the first `n` elements; the whole array when `n` is zero or below.
pub fn skip<T: Clone>(arr: Vec<T>, n: i64) -> (r: Vec<T>)
    ensures
        r@ == arr@.skip(clamp_count(n, arr@.len()) as int),
{
    let count = count_within(n, arr.len());
    let mut head = arr;
    let tail = head.split_off(count);
    tail
}

/// The last `count` elements, in the order they stand in - `take` from the
/// other end. Fewer come back if the array is shorter.
pub fn take_last<T: Clone>(arr: Vec<T>, count: i64) -> (r: Vec<T>)
    ensures
        r@ == arr@.skip(arr@.len() - clamp_count(count, arr@.len())),
{
    let keep = count_within(count, arr.len());
    let mut head = arr;
    let at = head.len() - keep;
    let tail = head.split_off(at);
    tail
}

/// The array without its last `count` elements - `skip` from the other end.
/// Skipping more than the array holds leaves nothing, not an error.
pub fn skip_last<T: Clone>(arr: Vec<T>, count: i64) -> (r: Vec<T>)
    ensures
        r@ == arr@.take(arr@.len() - clamp_count(count, arr@.len())),
{
    let drop = count_within(count, arr.len());
    let mut out = arr;
    let keep = out.len() - drop;
    out.truncate(keep);
    out
}

/// Whether the array has no elements.
pub fn is_empty<T>(arr: &Vec<T>) -> (r: bool)
    ensures
        r == (arr@.len() == 0),
{
    arr.len() == 0
}

/// The value repeated `count` times; none when `count` is zero or below.
pub fn repeat<T: Clone>(value: T, count: i64) -> (r: Vec<T>)
    ensures
        r@.len() == (if count <= 0 { 0 } else { count as int }),
        forall|k: int| 0 <= k < r@.len() ==> cloned(value, #[trigger] r@[k]),
{
    let mut out: Vec<T> = Vec::new();
    let mut i: i64 = 0;
    while i < count
        invariant
            0 <= i,
            count > 0 ==> i <= count,
            count <= 0 ==> i == 0,
            out@.len() == i,
            forall|k: int| 0 <= k < out@.len() ==> cloned(value, #[trigger] out@[k]),
        decreases count - i,
    {
        out.push(value.clone());
        i = i + 1;
    }
    out
}

/// The elements of each inner array in turn: one level of nesting removed.
pub fn flatten<T>(arr: Vec<Vec<T>>) -> (r: Vec<T>)
    ensures
        r@ == flat(arr@),
{
    let ghost whole = arr@;
    let mut pending = reverse_parts(arr);
    let mut out: Vec<T> = Vec::new();
    while pending.len() > 0
        invariant
            pending@.len() <= whole.len(),
            pending@ =~= whole.skip(whole.len() - pending@.len()).reverse(),
            out@ == flat(whole.take(whole.len() - pending@.len())),
        decreases pending@.len(),
    {
        let ghost i = whole.len() - pending@.len();
        let mut part = pending.pop().unwrap();
        proof {
            assert(part == whole[i]);
            assert(whole.take(i + 1).drop_last() =~= whole.take(i));
        }
        out.append(&mut part);
    }
    proof { assert(whole.take(whole.len() as int) =~= whole); }
    out
}

/// An array of arrays back to front.
fn reverse_parts<T>(arr: Vec<Vec<T>>) -> (r: Vec<Vec<T>>)
    ensures
        r@ == arr@.reverse(),
{
    let ghost whole = arr@;
    let mut rest = arr;
    let mut out: Vec<Vec<T>> = Vec::new();
    while rest.len() > 0
        invariant
            rest@.len() <= whole.len(),
            rest@ == whole.take(rest@.len() as int),
            out@ =~= Seq::new((whole.len() - rest@.len()) as nat, |k: int| whole[whole.len() - 1 - k]),
        decreases rest@.len(),
    {
        let ghost before = rest@;
        let x = rest.pop().unwrap();
        proof {
            assert(x == whole[before.len() - 1]);
            assert(rest@ =~= whole.take(rest@.len() as int));
        }
        out.push(x);
    }
    proof { assert(out@ =~= whole.reverse()); }
    out
}


/// Pairs of the elements at the same place in both arrays, as far as the
/// shorter one goes.
pub fn zip<T, U>(arr1: Vec<T>, arr2: Vec<U>) -> (r: Vec<(T, U)>)
    ensures
        r@.len() == (if arr1@.len() <= arr2@.len() { arr1@.len() } else { arr2@.len() }),
        forall|k: int| 0 <= k < r@.len() ==> #[trigger] r@[k] == (arr1@[k], arr2@[k]),
{
    let ghost a = arr1@;
    let ghost b = arr2@;
    let n = if arr1.len() <= arr2.len() { arr1.len() } else { arr2.len() };
    let mut firsts = arr1;
    firsts.truncate(n);
    let mut seconds = arr2;
    seconds.truncate(n);
    let mut firsts = reverse_any(firsts);
    let mut seconds = reverse_any(seconds);
    let mut out: Vec<(T, U)> = Vec::new();
    while firsts.len() > 0
        invariant
            n <= a.len(),
            n <= b.len(),
            firsts@.len() == seconds@.len(),
            out@.len() + firsts@.len() == n,
            forall|j: int| 0 <= j < firsts@.len() ==> #[trigger] firsts@[j] == a[n - 1 - j],
            forall|j: int| 0 <= j < seconds@.len() ==> #[trigger] seconds@[j] == b[n - 1 - j],
            forall|k: int| 0 <= k < out@.len() ==> #[trigger] out@[k] == (a[k], b[k]),
        decreases firsts@.len(),
    {
        let x = firsts.pop().unwrap();
        let y = seconds.pop().unwrap();
        out.push((x, y));
    }
    out
}

/// Any array back to front.
fn reverse_any<T>(arr: Vec<T>) -> (r: Vec<T>)
    ensures
        r@ == arr@.reverse(),
{
    let ghost whole = arr@;
    let mut rest = arr;
    let mut out: Vec<T> = Vec::new();
    while rest.len() > 0
        invariant
            rest@.len() <= whole.len(),
            rest@ == whole.take(rest@.len() as int),
            out@ =~= Seq::new((whole.len() - rest@.len()) as nat, |k: int| whole[whole.len() - 1 - k]),
        decreases rest@.len(),
    {
        let ghost before = rest@;
        let x = rest.pop().unwrap();
        proof {
            assert(x == whole[before.len() - 1]);
            assert(rest@ =~= whole.take(rest@.len() as int));
        }
        out.push(x);
    }
    proof { assert(out@ =~= whole.reverse()); }
    out
}

/// How far a count turns an array of this length: the count taken modulo the
/// length, so that it wraps and a negative count turns the other way.
pub open spec fn turn(count: i64, len: nat) -> nat {
    ((count as int) % (len as int)) as nat
}

/// The count modulo a positive length, as `turn` has it.
fn turn_of(count: i64, len: usize) -> (r: usize)
    requires
        len > 0,
    ensures
        r == turn(count, len as nat),
        r < len,
{
    let l = len as u64;
    if count >= 0 {
        let c = count as u64;
        let m = c % l;
        proof {
            assert(m == (count as int) % (len as int)) by (nonlinear_arith)
                requires m == c % l, c == count, l == len, l > 0;
        }
        m as usize
    } else {
        let a = (-(count + 1)) as u64;
        let m = a % l;
        let r = l - 1 - m;
        proof {
            let q = (a / l) as int;
            assert(a == q * l + m) by (nonlinear_arith)
                requires m == a % l, q == a / l, l > 0;
            assert(count == (-(q + 1)) * (l as int) + (l - 1 - m)) by (nonlinear_arith)
                requires a == q * l + m, a == -(count + 1);
            vstd::arithmetic::div_mod::lemma_fundamental_div_mod_converse(count as int, len as int, -(q + 1), r as int);
        }
        r as usize
    }
}

/// The array turned so the last elements come round to the front: `count`
/// places toward the back, a negative count turning it toward the front.
pub fn rotate<T: Clone>(arr: Vec<T>, n: i64) -> (r: Vec<T>)
    ensures
        arr@.len() == 0 ==> r@.len() == 0,
        arr@.len() > 0 ==> r@ == arr@.skip(arr@.len() - turn(n, arr@.len())) + arr@.take(arr@.len() - turn(n, arr@.len())),
{
    rotate_right(arr, n)
}

/// Rotate elements `count` positions toward the front: the first `count`
/// elements move to the back. The count wraps, and a negative count rotates
/// the other way, matching `rotate`.
pub fn rotate_left<T: Clone>(arr: Vec<T>, count: i64) -> (r: Vec<T>)
    ensures
        arr@.len() == 0 ==> r@.len() == 0,
        arr@.len() > 0 ==> r@ == arr@.skip(turn(count, arr@.len()) as int) + arr@.take(turn(count, arr@.len()) as int),
{
    if arr.len() == 0 {
        return Vec::new();
    }
    let shift = turn_of(count, arr.len());
    let mut front = arr;
    let mut out = front.split_off(shift);
    out.append(&mut front);
    out
}

/// Rotate elements `count` positions toward the back: the last `count`
/// elements move to the front.
pub fn rotate_right<T: Clone>(arr: Vec<T>, count: i64) -> (r: Vec<T>)
    ensures
        arr@.len() == 0 ==> r@.len() == 0,
        arr@.len() > 0 ==> r@ == arr@.skip(arr@.len() - turn(count, arr@.len())) + arr@.take(arr@.len() - turn(count, arr@.len())),
{
    if arr.len() == 0 {
        return Vec::new();
    }
    let shift = turn_of(count, arr.len());
    let split = arr.len() - shift;
    let mut front = arr;
    let mut out = front.split_off(split);
    out.append(&mut front);
    out
}

/// A new array with the item put in at the given index, moving the rest along.
/// An index equal to the length appends; anything beyond that is an error.
pub fn insert_at<T: Clone>(arr: Vec<T>, index: i64, item: T) -> (r: Result<Vec<T>, String>)
    ensures
        index < 0 ==> (r matches Err(e) && e@ == "array_insert: index cannot be negative, got "@ + int_text(index as int)),
        0 <= index <= arr@.len() ==> (r matches Ok(v) && v@ == arr@.insert(index as int, item)),
        index >= 0 && index > arr@.len() ==> (r matches Err(e)
            && e@ == two_number_text("array_insert: index "@, index as int, " is past the end of an array of length "@, arr@.len() as int)),
{
    if index < 0 {
        return Err(number_message("array_insert: index cannot be negative, got ", index));
    }
    if index as u64 > arr.len() as u64 {
        return Err(two_number_message("array_insert: index ", index, " is past the end of an array of length ", arr.len()));
    }
    let mut out = arr;
    out.insert(index as usize, item);
    Ok(out)
}

/// A new array without the element at the given index.
pub fn remove_at<T: Clone>(arr: Vec<T>, index: i64) -> (r: Result<Vec<T>, String>)
    ensures
        index < 0 ==> (r matches Err(e) && e@ == "array_remove_at: index cannot be negative, got "@ + int_text(index as int)),
        0 <= index < arr@.len() ==> (r matches Ok(v) && v@ == arr@.remove(index as int)),
        index >= 0 && index >= arr@.len() ==> (r matches Err(e)
            && e@ == two_number_text("array_remove_at: index "@, index as int, " is out of bounds for an array of length "@, arr@.len() as int)),
{
    if index < 0 {
        return Err(number_message("array_remove_at: index cannot be negative, got ", index));
    }
    if index as u64 >= arr.len() as u64 {
        return Err(two_number_message("array_remove_at: index ", index, " is out of bounds for an array of length ", arr.len()));
    }
    let mut out = arr;
    out.remove(index as usize);
    Ok(out)
}

/// A new array with the element at the given index replaced.
pub fn replace_at<T: Clone>(arr: Vec<T>, index: i64, item: T) -> (r: Result<Vec<T>, String>)
    ensures
        index < 0 ==> (r matches Err(e) && e@ == "array_replace_at: index cannot be negative, got "@ + int_text(index as int)),
        0 <= index < arr@.len() ==> (r matches Ok(v) && v@ == arr@.update(index as int, item)),
        index >= 0 && index >= arr@.len() ==> (r matches Err(e)
            && e@ == two_number_text("array_replace_at: index "@, index as int, " is out of bounds for an array of length "@, arr@.len() as int)),
{
    if index < 0 {
        return Err(number_message("array_replace_at: index cannot be negative, got ", index));
    }
    if index as u64 >= arr.len() as u64 {
        return Err(two_number_message("array_replace_at: index ", index, " is out of bounds for an array of length ", arr.len()));
    }
    let mut out = arr;
    out.set(index as usize, item);
    Ok(out)
}

/// A sequence with the elements at two places exchanged.
pub open spec fn swapped<T>(s: Seq<T>, i: int, j: int) -> Seq<T> {
    s.update(i, s[j]).update(j, s[i])
}

/// A new array with two elements exchanged.
pub fn swap<T: Clone>(arr: Vec<T>, first: i64, second: i64) -> (r: Result<Vec<T>, String>)
    ensures
        (first < 0 || second < 0) ==> (r matches Err(e)
            && e@ == "array_swap: indexes cannot be negative, got "@ + int_text(first as int) + " and "@ + int_text(second as int)),
        (0 <= first && 0 <= second && (first >= arr@.len() || second >= arr@.len())) ==> (r matches Err(e)
            && e@ == "array_swap: indexes "@ + int_text(first as int) + " and "@ + int_text(second as int)
                + " are not both inside an array of length "@ + int_text(arr@.len() as int)),
        (0 <= first < arr@.len() && 0 <= second < arr@.len()) ==> (r matches Ok(v) && v@ == swapped(arr@, first as int, second as int)),
{
    if first < 0 || second < 0 {
        let mut m = String::from_str("array_swap: indexes cannot be negative, got ");
        m.append(int_to_text(first).as_str());
        m.append(" and ");
        m.append(int_to_text(second).as_str());
        return Err(m);
    }
    if first as u64 >= arr.len() as u64 || second as u64 >= arr.len() as u64 {
        let mut m = String::from_str("array_swap: indexes ");
        m.append(int_to_text(first).as_str());
        m.append(" and ");
        m.append(int_to_text(second).as_str());
        m.append(" are not both inside an array of length ");
        m.append(usize_to_text(arr.len()).as_str());
        return Err(m);
    }
    let (i, j) = (first as usize, second as usize);
    let ghost s = arr@;
    let mut out = arr;
    if i == j {
        proof { assert(swapped(s, i as int, j as int) =~= s); }
        return Ok(out);
    }
    let (lo, hi) = if i < j { (i, j) } else { (j, i) };
    let mut moving = out.remove(hi);
    out.set_and_swap(lo, &mut moving);
    out.insert(hi, moving);
    proof { assert(out@ =~= swapped(s, i as int, j as int)); }
    Ok(out)
}

/// Every `step`-th element, starting with the first. The number of them is
/// the least count that reaches the end in steps of `step`.
pub fn step_by<T: Clone>(arr: Vec<T>, step: i64) -> (r: Result<Vec<T>, String>)
    ensures
        step < 1 ==> (r matches Err(e) && e@ == "array_step_by: step must be at least 1, got "@ + int_text(step as int)),
        step >= 1 ==> (r matches Ok(v)
            && v@.len() * step >= arr@.len()
            && (v@.len() > 0 ==> (v@.len() - 1) * step < arr@.len())
            && forall|k: int| 0 <= k < v@.len() ==> cloned(arr@[k * step], #[trigger] v@[k])),
{
    if step < 1 {
        return Err(number_message("array_step_by: step must be at least 1, got ", step));
    }
    let len = arr.len() as u64;
    let st = step as u64;
    let mut out: Vec<T> = Vec::new();
    let mut i: u64 = 0;
    let ghost mut j: int = 0;
    while i < len
        invariant
            len == arr@.len(),
            st == step,
            st >= 1,
            j >= 0,
            out@.len() == j,
            i <= len,
            i < len ==> i == j * st,
            i == len ==> j * st >= len,
            j > 0 ==> (j - 1) * st < len,
            forall|k: int| 0 <= k < out@.len() ==> cloned(arr@[k * step], #[trigger] out@[k]),
        decreases len - i,
    {
        let x = arr[i as usize].clone();
        out.push(x);
        proof {
            assert((j + 1) * st == j * st + st) by (nonlinear_arith);
        }
        if len - i > st {
            i = i + st;
        } else {
            i = len;
        }
        proof { j = j + 1; }
    }
    Ok(out)
}

/// The two sequences woven together - `a[0]`, `b[0]`, `a[1]`, `b[1]` - and when
/// one runs out, the rest of the other.
pub open spec fn woven<T>(a: Seq<T>, b: Seq<T>) -> Seq<T>
    decreases a.len(),
{
    if a.len() == 0 {
        b
    } else if b.len() == 0 {
        a
    } else {
        seq![a[0], b[0]] + woven(a.drop_first(), b.drop_first())
    }
}

/// The two arrays woven together - `first[0]`, `second[0]`, `first[1]`,
/// `second[1]` - and when one runs out, the rest of the other follows.
pub fn interleave<T: Clone>(first: Vec<T>, second: Vec<T>) -> (r: Vec<T>)
    ensures
        r@ == woven(first@, second@),
{
    let ghost whole = woven(first@, second@);
    let mut a = reverse_any(first);
    let mut b = reverse_any(second);
    let mut out: Vec<T> = Vec::new();
    proof {
        assert(a@.reverse() =~= first@);
        assert(b@.reverse() =~= second@);
        assert(out@ + woven(a@.reverse(), b@.reverse()) =~= whole);
    }
    while a.len() > 0 && b.len() > 0
        invariant
            out@ + woven(a@.reverse(), b@.reverse()) == whole,
        decreases a@.len(),
    {
        let ghost (a0, b0) = (a@, b@);
        let x = a.pop().unwrap();
        let y = b.pop().unwrap();
        proof {
            assert(a0.reverse().drop_first() =~= a@.reverse());
            assert(b0.reverse().drop_first() =~= b@.reverse());
            assert(out@.push(x).push(y) + woven(a@.reverse(), b@.reverse()) =~= out@ + woven(a0.reverse(), b0.reverse()));
        }
        out.push(x);
        out.push(y);
    }
    let mut rest_a = reverse_any(a);
    let mut rest_b = reverse_any(b);
    proof {
        if rest_a@.len() == 0 {
            assert(out@ + rest_a@ + rest_b@ =~= out@ + woven(rest_a@, rest_b@));
        } else {
            assert(out@ + rest_a@ + rest_b@ =~= out@ + woven(rest_a@, rest_b@));
        }
    }
    out.append(&mut rest_a);
    out.append(&mut rest_b);
    out
}

/// The length an array is padded to: the asked-for length, none below zero.
pub open spec fn pad_target(length: i64) -> nat {
    if length < 0 { 0 } else { length as nat }
}

/// The array grown to the given length by appending the value; an array
/// already that long (or longer) comes back unchanged.
pub fn pad_end<T: Clone>(arr: Vec<T>, length: i64, value: T) -> (r: Vec<T>)
    ensures
        r@.len() == (if arr@.len() >= pad_target(length) { arr@.len() } else { pad_target(length) }),
        r@.take(arr@.len() as int) == arr@,
        forall|k: int| arr@.len() <= k < r@.len() ==> cloned(value, #[trigger] r@[k]),
{
    let ghost start = arr@;
    let target: u64 = if length < 0 { 0 } else { length as u64 };
    let mut out = arr;
    while (out.len() as u64) < target
        invariant
            target == pad_target(length),
            start.len() <= out@.len(),
            out@.len() <= (if start.len() >= target { start.len() as int } else { target as int }),
            out@.take(start.len() as int) == start,
            forall|k: int| start.len() <= k < out@.len() ==> cloned(value, #[trigger] out@[k]),
        decreases target - out@.len(),
    {
        let x = value.clone();
        out.push(x);
        proof { assert(out@.take(start.len() as int) =~= start); }
    }
    out
}

/// The array grown to the given length by putting copies of the value in
/// front - fixed-width alignment, where the existing elements keep the
/// right-hand end.
pub fn pad_start<T: Clone>(arr: Vec<T>, length: i64, value: T) -> (r: Vec<T>)
    ensures
        arr@.len() >= pad_target(length) ==> r@ == arr@,
        arr@.len() < pad_target(length) ==> r@.len() == pad_target(length)
            && r@.skip(pad_target(length) - arr@.len()) == arr@
            && forall|k: int| 0 <= k < pad_target(length) - arr@.len() ==> cloned(value, #[trigger] r@[k]),
{
    let target: u64 = if length < 0 { 0 } else { length as u64 };
    if arr.len() as u64 >= target {
        return arr;
    }
    let missing = target - arr.len() as u64;
    let mut out: Vec<T> = Vec::new();
    let mut i: u64 = 0;
    while i < missing
        invariant
            i <= missing,
            out@.len() == i,
            forall|k: int| 0 <= k < out@.len() ==> cloned(value, #[trigger] out@[k]),
        decreases missing - i,
    {
        out.push(value.clone());
        i = i + 1;
    }
    let ghost front = out@;
    let mut tail = arr;
    out.append(&mut tail);
    proof { assert(out@.skip(front.len() as int) =~= arr@); }
    out
}

/// The whole numbers from `start` up to but not including `end`.
pub fn array_range(start: i64, end: i64) -> (r: Vec<i64>)
    ensures
        r@ == range_of(start, end, false),
{
    range_exclusive(start, end)
}

/// The whole numbers from `start` to `end`, both included.
pub fn array_range_inclusive(start: i64, end: i64) -> (r: Vec<i64>)
    ensures
        r@ == range_of(start, end, true),
{
    range(start, end)
}

/// How many elements `take_int` and `take_string` keep: a negative count,
/// read as an unsigned size, is larger than any array and keeps them all.
pub open spec fn unsigned_count(n: i64, len: nat) -> nat {
    if n < 0 || n >= len { len } else { n as nat }
}

/// The first `n` numbers; a negative `n` keeps them all.
pub fn take_int(arr: Vec<i64>, n: i64) -> (r: Vec<i64>)
    ensures
        r@ == arr@.take(unsigned_count(n, arr@.len()) as int),
{
    let keep = if n < 0 || n as u64 >= arr.len() as u64 { arr.len() } else { n as usize };
    let mut out = arr;
    out.truncate(keep);
    out
}

/// The first `n` strings; a negative `n` keeps them all.
pub fn take_string(arr: Vec<String>, n: i64) -> (r: Vec<String>)
    ensures
        r@ == arr@.take(unsigned_count(n, arr@.len()) as int),
{
    let keep = if n < 0 || n as u64 >= arr.len() as u64 { arr.len() } else { n as usize };
    let mut out = arr;
    out.truncate(keep);
    out
}


/// Where the `k`-th piece of a cut into pieces of `size` ends.
pub open spec fn piece_end(k: int, size: int, len: int) -> int {
    if (k + 1) * size < len { (k + 1) * size } else { len }
}

/// The array cut into pieces of `size` elements, the last piece taking what
/// is left.
pub fn chunk<T: Clone>(arr: &Vec<T>, size: i64) -> (r: Result<Vec<Vec<T>>, String>)
    ensures
        size <= 0 ==> (r matches Err(e) && e@ == "array_chunk: chunk size must be positive, got "@ + int_text(size as int)),
        size > 0 ==> (r matches Ok(v)
            && v@.len() * size >= arr@.len()
            && (v@.len() > 0 ==> (v@.len() - 1) * size < arr@.len())
            && forall|k: int| 0 <= k < v@.len() ==>
                clones_of(#[trigger] v@[k]@, arr@.subrange(k * size, piece_end(k, size as int, arr@.len() as int)))),
{
    if size <= 0 {
        return Err(number_message("array_chunk: chunk size must be positive, got ", size));
    }
    let len = arr.len();
    let st = size as u64;
    let mut out: Vec<Vec<T>> = Vec::new();
    let mut i: usize = 0;
    let ghost mut j: int = 0;
    while i < len
        invariant
            len == arr@.len(),
            st == size,
            st >= 1,
            j >= 0,
            out@.len() == j,
            i <= len,
            i < len ==> i == j * st,
            i == len ==> j * st >= len,
            j > 0 ==> (j - 1) * st < len,
            forall|k: int| 0 <= k < out@.len() ==>
                clones_of(#[trigger] out@[k]@, arr@.subrange(k * size, piece_end(k, size as int, len as int))),
        decreases len - i,
    {
        proof {
            assert((j + 1) * st == j * st + st) by (nonlinear_arith);
        }
        let end: usize = if ((len - i) as u64) > st { i + (st as usize) } else { len };
        let piece = clone_range(arr, i, end);
        let ghost before = out@;
        out.push(piece);
        proof {
            assert forall|k: int| 0 <= k < out@.len() implies
                clones_of(#[trigger] out@[k]@, arr@.subrange(k * size, piece_end(k, size as int, len as int))) by {
                if k < j {
                    assert(out@[k] == before[k]);
                }
            }
        }
        i = end;
        proof { j = j + 1; }
    }
    Ok(out)
}

/// One page of a list, numbered from one. A page past the end is empty
/// rather than an error.
pub fn page<T: Clone>(arr: &Vec<T>, page_number: i64, per_page: i64) -> (r: Result<Vec<T>, String>)
    ensures
        page_number < 1 ==> (r matches Err(e) && e@ == "array_page: pages are numbered from 1, got "@ + int_text(page_number as int)),
        page_number >= 1 && per_page < 1 ==> (r matches Err(e)
            && e@ == "array_page: a page has to hold at least one item, got "@ + int_text(per_page as int)),
        page_number >= 1 && per_page >= 1 && (page_number - 1) * per_page >= arr@.len() ==> (r matches Ok(v) && v@.len() == 0),
        page_number >= 1 && per_page >= 1 && (page_number - 1) * per_page < arr@.len() ==> (r matches Ok(v)
            && clones_of(v@, arr@.subrange((page_number - 1) * per_page,
                if page_number * per_page < arr@.len() { page_number * per_page } else { arr@.len() as int }))),
{
    if page_number < 1 {
        return Err(number_message("array_page: pages are numbered from 1, got ", page_number));
    }
    if per_page < 1 {
        return Err(number_message("array_page: a page has to hold at least one item, got ", per_page));
    }
    let before = (page_number - 1) as u128;
    let each = per_page as u128;
    proof {
        assert(before * each < 0x4000_0000_0000_0000_0000_0000_0000_0000u128) by (nonlinear_arith)
            requires before < 0x8000_0000_0000_0000u128, each < 0x8000_0000_0000_0000u128;
        assert(page_number * per_page == (page_number - 1) * per_page + per_page) by (nonlinear_arith);
    }
    let first = before * each;
    if first >= arr.len() as u128 {
        return Ok(Vec::new());
    }
    let last: u128 = if first + each < arr.len() as u128 { first + each } else { arr.len() as u128 };
    Ok(clone_range(arr, first as usize, last as usize))
}

/// Every run of neighbouring elements of the given size, one step apart. An
/// array shorter than the window has no runs of that size.
pub fn windows<T: Clone>(arr: &Vec<T>, size: i64) -> (r: Result<Vec<Vec<T>>, String>)
    ensures
        size <= 0 ==> (r matches Err(e)
            && e@ == "array_windows: the window has to hold at least one element, got "@ + int_text(size as int)),
        size > arr@.len() ==> (r matches Ok(v) && v@.len() == 0),
        0 < size <= arr@.len() ==> (r matches Ok(v)
            && v@.len() == arr@.len() - size + 1
            && forall|k: int| 0 <= k < v@.len() ==> clones_of(#[trigger] v@[k]@, arr@.subrange(k, k + size))),
{
    if size <= 0 {
        return Err(number_message("array_windows: the window has to hold at least one element, got ", size));
    }
    if size as u64 > arr.len() as u64 {
        return Ok(Vec::new());
    }
    let width = size as usize;
    let count = arr.len() - width + 1;
    let mut out: Vec<Vec<T>> = Vec::new();
    let mut k: usize = 0;
    while k < count
        invariant
            width == size,
            width <= arr@.len(),
            count == arr@.len() - width + 1,
            k <= count,
            out@.len() == k,
            forall|q: int| 0 <= q < out@.len() ==> clones_of(#[trigger] out@[q]@, arr@.subrange(q, q + size)),
        decreases count - k,
    {
        let n = arr.len();
        assert(k + width <= n);
        let piece = clone_range(arr, k, k + width);
        out.push(piece);
        k = k + 1;
    }
    Ok(out)
}

/// How many arrays the combining functions may produce before they refuse.
pub const LARGEST_PRODUCED_COUNT: usize = 1000000;

/// The number of pairs of a product, as a size that stops at its largest
/// value rather than overflowing.
pub open spec fn saturated_product(a: nat, b: nat) -> int {
    if a * b > usize::MAX { usize::MAX as int } else { (a * b) as int }
}

/// Whether `pair` is a two-element array of clones of `x` and `y`.
pub open spec fn pair_of<T: Clone>(pair: Seq<T>, x: T, y: T) -> bool {
    pair.len() == 2 && cloned(x, pair[0]) && cloned(y, pair[1])
}

/// Every pairing of one element from each array, as two-element arrays. The
/// first array moves slowest, so pair `p` holds `first[p / len2]` and
/// `second[p % len2]`. More than a million pairs is refused.
pub fn cartesian_product<T: Clone>(first: &Vec<T>, second: &Vec<T>) -> (r: Result<Vec<Vec<T>>, String>)
    ensures
        saturated_product(first@.len(), second@.len()) > LARGEST_PRODUCED_COUNT ==> (r matches Err(e)
            && e@ == "array_cartesian_product: "@ + int_text(first@.len() as int) + " by "@ + int_text(second@.len() as int)
                + " is "@ + int_text(saturated_product(first@.len(), second@.len())) + " pairs, more than the "@
                + int_text(LARGEST_PRODUCED_COUNT as int) + " this will build"@),
        saturated_product(first@.len(), second@.len()) <= LARGEST_PRODUCED_COUNT ==> (r matches Ok(v)
            && v@.len() == first@.len() * second@.len()
            && forall|p: int| 0 <= p < v@.len() ==>
                pair_of(#[trigger] v@[p]@, first@[p / (second@.len() as int)], second@[p % (second@.len() as int)])),
{
    let (l1, l2) = (first.len(), second.len());
    proof {
        assert((l1 as u128) * (l2 as u128) <= 0xffff_ffff_ffff_ffff_ffff_ffff_ffff_ffffu128) by (nonlinear_arith)
            requires l1 <= 0xffff_ffff_ffff_ffffu64, l2 <= 0xffff_ffff_ffff_ffffu64;
    }
    let product: u128 = (l1 as u128) * (l2 as u128);
    let total: usize = if product > usize::MAX as u128 { usize::MAX } else { product as usize };
    if total > LARGEST_PRODUCED_COUNT {
        let mut m = String::from_str("array_cartesian_product: ");
        m.append(usize_to_text(l1).as_str());
        m.append(" by ");
        m.append(usize_to_text(l2).as_str());
        m.append(" is ");
        m.append(usize_to_text(total).as_str());
        m.append(" pairs, more than the ");
        m.append(usize_to_text(LARGEST_PRODUCED_COUNT).as_str());
        m.append(" this will build");
        return Err(m);
    }
    let mut out: Vec<Vec<T>> = Vec::new();
    let mut i: usize = 0;
    while i < l1
        invariant
            l1 == first@.len(),
            l2 == second@.len(),
            l1 * l2 <= LARGEST_PRODUCED_COUNT,
            i <= l1,
            out@.len() == i * l2,
            forall|p: int| 0 <= p < out@.len() ==>
                pair_of(#[trigger] out@[p]@, first@[p / (l2 as int)], second@[p % (l2 as int)]),
        decreases l1 - i,
    {
        let mut j: usize = 0;
        proof {
            assert(i * l2 + l2 <= l1 * l2) by (nonlinear_arith) requires i < l1;
        }
        while j < l2
            invariant
                l1 == first@.len(),
                l2 == second@.len(),
                i < l1,
                j <= l2,
                i * l2 + l2 <= LARGEST_PRODUCED_COUNT,
                out@.len() == i * l2 + j,
                forall|p: int| 0 <= p < out@.len() ==>
                    pair_of(#[trigger] out@[p]@, first@[p / (l2 as int)], second@[p % (l2 as int)]),
            decreases l2 - j,
        {
            let mut pair: Vec<T> = Vec::new();
            pair.push(first[i].clone());
            pair.push(second[j].clone());
            proof {
                vstd::arithmetic::div_mod::lemma_fundamental_div_mod_converse((i * l2 + j) as int, l2 as int, i as int, j as int);
            }
            out.push(pair);
            j = j + 1;
        }
        proof {
            assert((i + 1) * l2 == i * l2 + l2) by (nonlinear_arith);
        }
        i = i + 1;
    }
    Ok(out)
}


/// Whether two elements are equal as their type's `==` decides it, the first
/// on the left.
pub open spec fn same<T: PartialEq>(a: T, b: T) -> bool {
    a.eq_spec(&b)
}

/// Whether the element type's `==` is known to decide as `same` says. It is
/// for the integer types and `bool`; for other types the contracts below say
/// nothing of what an equality test found.
pub open spec fn eq_known<T: PartialEq>() -> bool {
    T::obeys_eq_spec()
}

/// Whether some element of `s` is equal to `x`, the element on the left.
pub open spec fn has_same<T: PartialEq>(s: Seq<T>, x: T) -> bool {
    exists|j: int| 0 <= j < s.len() && same(#[trigger] s[j], x)
}

/// Asks the element type's `==`.
fn equal<T: PartialEq>(a: &T, b: &T) -> (r: bool)
    ensures
        eq_known::<T>() ==> r == same(*a, *b),
{
    *a == *b
}

/// Whether some element of the array is equal to `x`, walking it in order.
fn holds_same<T: PartialEq>(s: &Vec<T>, x: &T) -> (r: bool)
    ensures
        eq_known::<T>() ==> r == has_same(s@, *x),
{
    let mut i: usize = 0;
    while i < s.len()
        invariant
            i <= s@.len(),
            eq_known::<T>() ==> forall|j: int| 0 <= j < i ==> !same(#[trigger] s@[j], *x),
        decreases s@.len() - i,
    {
        if equal(&s[i], x) {
            return true;
        }
        i = i + 1;
    }
    false
}

/// Whether some element is equal to the item, searched in parallel.
///
/// Wraps rayon's `par_iter().any` over the array, with a predicate that only
/// calls `equal`; rayon documents `any` as true exactly when some item
/// matches the predicate.
#[verifier::external_body]
fn any_same_in_parallel<T: PartialEq + Sync>(arr: &Vec<T>, item: &T) -> (r: bool)
    ensures
        eq_known::<T>() ==> r == has_same(arr@, *item),
{
    arr.par_iter().any(|x| equal(x, item))
}

/// Whether the array holds an element equal to the item.
pub fn contains<T: PartialEq + Sync + Send>(arr: &Vec<T>, item: T) -> (r: bool)
    ensures
        eq_known::<T>() ==> r == has_same(arr@, item),
{
    any_same_in_parallel(arr, &item)
}

/// Where a value first appears, if it does.
pub fn first_position<T: PartialEq>(arr: &Vec<T>, value: &T) -> (r: Option<usize>)
    ensures
        eq_known::<T>() ==> match r {
            Some(i) => i < arr@.len() && same(arr@[i as int], *value)
                && forall|j: int| 0 <= j < i ==> !same(#[trigger] arr@[j], *value),
            None => !has_same(arr@, *value),
        },
{
    let mut i: usize = 0;
    while i < arr.len()
        invariant
            i <= arr@.len(),
            eq_known::<T>() ==> forall|j: int| 0 <= j < i ==> !same(#[trigger] arr@[j], *value),
        decreases arr@.len() - i,
    {
        if equal(&arr[i], value) {
            return Some(i);
        }
        i = i + 1;
    }
    None
}

/// Where a value last appears, if it does.
pub fn last_position<T: PartialEq>(arr: &Vec<T>, value: &T) -> (r: Option<usize>)
    ensures
        eq_known::<T>() ==> match r {
            Some(i) => i < arr@.len() && same(arr@[i as int], *value)
                && forall|j: int| i < j < arr@.len() ==> !same(#[trigger] arr@[j], *value),
            None => !has_same(arr@, *value),
        },
{
    let mut i: usize = arr.len();
    while i > 0
        invariant
            i <= arr@.len(),
            eq_known::<T>() ==> forall|j: int| i <= j < arr@.len() ==> !same(#[trigger] arr@[j], *value),
        decreases i,
    {
        if equal(&arr[i - 1], value) {
            return Some(i - 1);
        }
        i = i - 1;
    }
    None
}

/// Where a value first appears in the array. An error rather than -1 when it
/// is not there.
pub fn index_of<T: PartialEq>(arr: &Vec<T>, item: T) -> (r: Result<i64, String>)
    requires
        arr@.len() <= i64::MAX,
    ensures
        eq_known::<T>() ==> match r {
            Ok(i) => 0 <= i < arr@.len() && same(arr@[i as int], item)
                && forall|j: int| 0 <= j < i ==> !same(#[trigger] arr@[j], item),
            Err(e) => !has_same(arr@, item) && e@ == "array_index_of: the array does not contain that item"@,
        },
        r is Err ==> r->Err_0@ == "array_index_of: the array does not contain that item"@,
{
    match first_position(arr, &item) {
        Some(position) => Ok(position as i64),
        None => Err(String::from_str("array_index_of: the array does not contain that item")),
    }
}

/// How many elements of `s` are equal to `x`.
pub open spec fn count_same<T: PartialEq>(s: Seq<T>, x: T) -> nat
    decreases s.len(),
{
    if s.len() == 0 {
        0
    } else {
        count_same(s.drop_last(), x) + if same(s.last(), x) { 1nat } else { 0nat }
    }
}

/// How many times a value appears in the array. Zero is a fine answer here.
pub fn count_of<T: PartialEq>(arr: &Vec<T>, item: T) -> (r: i64)
    ensures
        eq_known::<T>() ==> r == count_same(arr@, item) as i64,
{
    let mut count: usize = 0;
    let mut i: usize = 0;
    while i < arr.len()
        invariant
            i <= arr@.len(),
            count <= i,
            eq_known::<T>() ==> count == count_same(arr@.take(i as int), item),
        decreases arr@.len() - i,
    {
        proof { assert(arr@.take(i + 1).drop_last() =~= arr@.take(i as int)); }
        if equal(&arr[i], &item) {
            count = count + 1;
        }
        i = i + 1;
    }
    proof { assert(arr@.take(arr@.len() as int) =~= arr@); }
    count as i64
}

/// The first occurrence of each value, in the order they first appear.
pub open spec fn firsts<T: PartialEq>(s: Seq<T>) -> Seq<T>
    decreases s.len(),
{
    if s.len() == 0 {
        Seq::empty()
    } else {
        let kept = firsts(s.drop_last());
        if has_same(kept, s.last()) { kept } else { kept.push(s.last()) }
    }
}

/// The array with each value only the first time it appears.
pub fn unique<T: PartialEq + Clone>(arr: Vec<T>) -> (r: Vec<T>)
    ensures
        eq_known::<T>() ==> r@ == firsts(arr@),
{
    let ghost whole = arr@;
    let mut pending = reverse_any(arr);
    let mut out: Vec<T> = Vec::new();
    while pending.len() > 0
        invariant
            pending@.len() <= whole.len(),
            pending@ == whole.skip(whole.len() - pending@.len()).reverse(),
            eq_known::<T>() ==> out@ == firsts(whole.take(whole.len() - pending@.len())),
        decreases pending@.len(),
    {
        let ghost i = whole.len() - pending@.len();
        let ghost before = pending@;
        let item = pending.pop().unwrap();
        proof {
            assert(item == before[before.len() - 1]);
            assert(whole.take(i + 1).drop_last() =~= whole.take(i));
            assert(pending@ =~= whole.skip(whole.len() - pending@.len()).reverse());
        }
        if !holds_same(&out, &item) {
            out.push(item);
        }
    }
    proof { assert(whole.take(whole.len() as int) =~= whole); }
    out
}

/// The positions whose element differs from the one before it, and the first.
pub open spec fn run_starts<T: PartialEq>(s: Seq<T>) -> Seq<T>
    decreases s.len(),
{
    if s.len() == 0 {
        Seq::empty()
    } else if s.len() == 1 {
        seq![s[0]]
    } else if !same(s.last(), s[s.len() - 2]) {
        run_starts(s.drop_last()).push(s.last())
    } else {
        run_starts(s.drop_last())
    }
}

/// Remove consecutive duplicates: each element is kept when it differs from
/// the one before it.
pub fn deduplicate<T: PartialEq + Clone>(arr: Vec<T>) -> (r: Vec<T>)
    ensures
        eq_known::<T>() ==> clones_of(r@, run_starts(arr@)),
{
    if arr.len() == 0 {
        return Vec::new();
    }
    let mut out: Vec<T> = Vec::new();
    out.push(arr[0].clone());
    let mut i: usize = 1;
    proof { assert(arr@.take(1) =~= seq![arr@[0]]); }
    while i < arr.len()
        invariant
            1 <= i <= arr@.len(),
            eq_known::<T>() ==> clones_of(out@, run_starts(arr@.take(i as int))),
        decreases arr@.len() - i,
    {
        proof {
            assert(arr@.take(i + 1).drop_last() =~= arr@.take(i as int));
            assert(arr@.take(i + 1).last() == arr@[i as int]);
            assert(arr@.take(i + 1)[i - 1] == arr@[i - 1]);
        }
        if arr[i] != arr[i - 1] {
            out.push(arr[i].clone());
        }
        i = i + 1;
    }
    proof { assert(arr@.take(arr@.len() as int) =~= arr@); }
    out
}

/// The elements of `s` that `other` holds, each value once, in the order of `s`.
pub open spec fn common<T: PartialEq>(s: Seq<T>, other: Seq<T>) -> Seq<T>
    decreases s.len(),
{
    if s.len() == 0 {
        Seq::empty()
    } else {
        let kept = common(s.drop_last(), other);
        if has_same(other, s.last()) && !has_same(kept, s.last()) { kept.push(s.last()) } else { kept }
    }
}

/// The elements of `s` that `other` does not hold, in order.
pub open spec fn missing_from<T: PartialEq>(s: Seq<T>, other: Seq<T>) -> Seq<T>
    decreases s.len(),
{
    if s.len() == 0 {
        Seq::empty()
    } else {
        let kept = missing_from(s.drop_last(), other);
        if !has_same(other, s.last()) { kept.push(s.last()) } else { kept }
    }
}

/// `a`, then each element of `b` that is not yet there.
pub open spec fn joined<T: PartialEq>(a: Seq<T>, b: Seq<T>) -> Seq<T>
    decreases b.len(),
{
    if b.len() == 0 {
        a
    } else {
        let kept = joined(a, b.drop_last());
        if has_same(kept, b.last()) { kept } else { kept.push(b.last()) }
    }
}

/// Intersection of two arrays: the elements of the first that the second
/// holds, each once.
pub fn intersect<T: PartialEq + Clone>(arr1: Vec<T>, arr2: Vec<T>) -> (r: Vec<T>)
    ensures
        eq_known::<T>() ==> r@ == common(arr1@, arr2@),
{
    let ghost whole = arr1@;
    let mut pending = reverse_any(arr1);
    let mut out: Vec<T> = Vec::new();
    while pending.len() > 0
        invariant
            pending@.len() <= whole.len(),
            pending@ == whole.skip(whole.len() - pending@.len()).reverse(),
            eq_known::<T>() ==> out@ == common(whole.take(whole.len() - pending@.len()), arr2@),
        decreases pending@.len(),
    {
        let ghost i = whole.len() - pending@.len();
        let ghost before = pending@;
        let item = pending.pop().unwrap();
        proof {
            assert(item == before[before.len() - 1]);
            assert(whole.take(i + 1).drop_last() =~= whole.take(i));
            assert(pending@ =~= whole.skip(whole.len() - pending@.len()).reverse());
        }
        if holds_same(&arr2, &item) && !holds_same(&out, &item) {
            out.push(item);
        }
    }
    proof { assert(whole.take(whole.len() as int) =~= whole); }
    out
}

/// Difference of two arrays: the elements of the first the second lacks.
pub fn difference<T: PartialEq + Clone>(arr1: Vec<T>, arr2: Vec<T>) -> (r: Vec<T>)
    ensures
        eq_known::<T>() ==> r@ == missing_from(arr1@, arr2@),
{
    let ghost whole = arr1@;
    let mut pending = reverse_any(arr1);
    let mut out: Vec<T> = Vec::new();
    while pending.len() > 0
        invariant
            pending@.len() <= whole.len(),
            pending@ == whole.skip(whole.len() - pending@.len()).reverse(),
            eq_known::<T>() ==> out@ == missing_from(whole.take(whole.len() - pending@.len()), arr2@),
        decreases pending@.len(),
    {
        let ghost i = whole.len() - pending@.len();
        let ghost before = pending@;
        let item = pending.pop().unwrap();
        proof {
            assert(item == before[before.len() - 1]);
            assert(whole.take(i + 1).drop_last() =~= whole.take(i));
            assert(pending@ =~= whole.skip(whole.len() - pending@.len()).reverse());
        }
        if !holds_same(&arr2, &item) {
            out.push(item);
        }
    }
    proof { assert(whole.take(whole.len() as int) =~= whole); }
    out
}

/// Union of two arrays: the first, then each element of the second that is
/// not yet there.
pub fn union<T: PartialEq + Clone>(arr1: Vec<T>, arr2: Vec<T>) -> (r: Vec<T>)
    ensures
        eq_known::<T>() ==> r@ == joined(arr1@, arr2@),
{
    let ghost whole = arr2@;
    let ghost start = arr1@;
    let mut out = arr1;
    let mut pending = reverse_any(arr2);
    while pending.len() > 0
        invariant
            pending@.len() <= whole.len(),
            pending@ == whole.skip(whole.len() - pending@.len()).reverse(),
            eq_known::<T>() ==> out@ == joined(start, whole.take(whole.len() - pending@.len())),
        decreases pending@.len(),
    {
        let ghost i = whole.len() - pending@.len();
        let ghost before = pending@;
        let item = pending.pop().unwrap();
        proof {
            assert(item == before[before.len() - 1]);
            assert(whole.take(i + 1).drop_last() =~= whole.take(i));
            assert(pending@ =~= whole.skip(whole.len() - pending@.len()).reverse());
        }
        if !holds_same(&out, &item) {
            out.push(item);
        }
    }
    proof { assert(whole.take(whole.len() as int) =~= whole); }
    out
}

/// Whether every element is the same as the first. An empty array is uniform.
pub fn all_equal<T: PartialEq>(arr: &Vec<T>) -> (r: bool)
    ensures
        eq_known::<T>() ==> r == forall|k: int| 1 <= k < arr@.len() ==> same(#[trigger] arr@[k], arr@[0]),
{
    if arr.len() == 0 {
        return true;
    }
    let mut i: usize = 1;
    while i < arr.len()
        invariant
            1 <= i <= arr@.len(),
            eq_known::<T>() ==> forall|k: int| 1 <= k < i ==> same(#[trigger] arr@[k], arr@[0]),
        decreases arr@.len() - i,
    {
        if !equal(&arr[i], &arr[0]) {
            return false;
        }
        i = i + 1;
    }
    true
}

/// Whether the array begins with the given prefix, element for element.
pub fn starts_with<T: PartialEq>(arr: &Vec<T>, prefix: Vec<T>) -> (r: bool)
    ensures
        eq_known::<T>() ==> r == (prefix@.len() <= arr@.len()
            && forall|k: int| 0 <= k < prefix@.len() ==> same(#[trigger] arr@[k], prefix@[k])),
{
    if prefix.len() > arr.len() {
        return false;
    }
    let mut i: usize = 0;
    while i < prefix.len()
        invariant
            i <= prefix@.len() <= arr@.len(),
            eq_known::<T>() ==> forall|k: int| 0 <= k < i ==> same(#[trigger] arr@[k], prefix@[k]),
        decreases prefix@.len() - i,
    {
        if !equal(&arr[i], &prefix[i]) {
            return false;
        }
        i = i + 1;
    }
    true
}

/// Whether the array ends with the given suffix, element for element.
pub fn ends_with<T: PartialEq>(arr: &Vec<T>, suffix: Vec<T>) -> (r: bool)
    ensures
        eq_known::<T>() ==> r == (suffix@.len() <= arr@.len()
            && forall|k: int| 0 <= k < suffix@.len() ==>
                same(#[trigger] arr@[arr@.len() - suffix@.len() + k], suffix@[k])),
{
    if suffix.len() > arr.len() {
        return false;
    }
    let n = arr.len();
    let offset = n - suffix.len();
    let mut i: usize = 0;
    while i < suffix.len()
        invariant
            n == arr@.len(),
            i <= suffix@.len() <= arr@.len(),
            offset == arr@.len() - suffix@.len(),
            eq_known::<T>() ==> forall|k: int| 0 <= k < i ==>
                same(#[trigger] arr@[arr@.len() - suffix@.len() + k], suffix@[k]),
        decreases suffix@.len() - i,
    {
        if !equal(&arr[offset + i], &suffix[i]) {
            return false;
        }
        i = i + 1;
    }
    true
}

/// Whether no value appears more than once: no element is equal to one
/// before it.
pub fn is_unique<T: PartialEq>(arr: &Vec<T>) -> (r: bool)
    ensures
        eq_known::<T>() ==> r == forall|i: int, j: int| 0 <= i < j < arr@.len() ==> !same(#[trigger] arr@[j], #[trigger] arr@[i]),
{
    let mut i: usize = 0;
    while i < arr.len()
        invariant
            i <= arr@.len(),
            eq_known::<T>() ==> forall|a: int, b: int| 0 <= a < i && a < b < arr@.len() ==> !same(#[trigger] arr@[b], #[trigger] arr@[a]),
        decreases arr@.len() - i,
    {
        let mut j: usize = i + 1;
        while j < arr.len()
            invariant
                i < arr@.len(),
                i + 1 <= j <= arr@.len(),
                eq_known::<T>() ==> forall|a: int, b: int| 0 <= a < i && a < b < arr@.len() ==> !same(#[trigger] arr@[b], #[trigger] arr@[a]),
                eq_known::<T>() ==> forall|b: int| i < b < j ==> !same(#[trigger] arr@[b], arr@[i as int]),
            decreases arr@.len() - j,
        {
            if equal(&arr[j], &arr[i]) {
                return false;
            }
            j = j + 1;
        }
        i = i + 1;
    }
    true
}

/// How many runs of neighbouring equal elements `s` has.
pub open spec fn runs_in<T: PartialEq>(s: Seq<T>) -> nat
    decreases s.len(),
{
    if s.len() == 0 {
        0
    } else if s.len() == 1 {
        1
    } else {
        runs_in(s.drop_last()) + if !same(s.last(), s[s.len() - 2]) { 1nat } else { 0nat }
    }
}

/// How many runs of consecutive equal elements the array has. [1, 1, 2, 1] is
/// three runs; an empty array is zero.
pub fn count_runs<T: PartialEq>(arr: &Vec<T>) -> (r: i64)
    ensures
        eq_known::<T>() ==> r == runs_in(arr@) as i64,
{
    if arr.len() == 0 {
        return 0;
    }
    let mut runs: usize = 1;
    let mut i: usize = 1;
    proof { assert(arr@.take(1).len() == 1); }
    while i < arr.len()
        invariant
            1 <= i <= arr@.len(),
            runs <= i,
            eq_known::<T>() ==> runs == runs_in(arr@.take(i as int)),
        decreases arr@.len() - i,
    {
        proof {
            assert(arr@.take(i + 1).drop_last() =~= arr@.take(i as int));
            assert(arr@.take(i + 1).last() == arr@[i as int]);
            assert(arr@.take(i + 1)[i - 1] == arr@[i - 1]);
        }
        if arr[i] != arr[i - 1] {
            runs = runs + 1;
        }
        i = i + 1;
    }
    proof { assert(arr@.take(arr@.len() as int) =~= arr@); }
    runs as i64
}

/// How many elements the two arrays share at their start.
pub fn common_prefix_length<T: PartialEq>(first: &Vec<T>, second: &Vec<T>) -> (r: i64)
    requires
        first@.len() <= i64::MAX,
    ensures
        eq_known::<T>() ==> {
            &&& 0 <= r <= first@.len()
            &&& r <= second@.len()
            &&& forall|k: int| 0 <= k < r ==> same(#[trigger] first@[k], second@[k])
            &&& (r < first@.len() && r < second@.len()) ==> !same(first@[r as int], second@[r as int])
        },
{
    let mut i: usize = 0;
    while i < first.len() && i < second.len() && equal(&first[i], &second[i])
        invariant
            i <= first@.len(),
            i <= second@.len(),
            eq_known::<T>() ==> forall|k: int| 0 <= k < i ==> same(#[trigger] first@[k], second@[k]),
        decreases first@.len() - i,
    {
        i = i + 1;
    }
    i as i64
}

/// The strings of `s` that are not empty, in order.
pub open spec fn nonempty_texts(s: Seq<String>) -> Seq<String>
    decreases s.len(),
{
    if s.len() == 0 {
        Seq::empty()
    } else if s.last()@.len() > 0 {
        nonempty_texts(s.drop_last()).push(s.last())
    } else {
        nonempty_texts(s.drop_last())
    }
}

/// The strings that actually say something: empty strings dropped,
/// everything else kept in order.
pub fn compact_strings(arr: Vec<String>) -> (r: Vec<String>)
    ensures
        r@ == nonempty_texts(arr@),
{
    let ghost whole = arr@;
    let mut pending = reverse_any(arr);
    let mut out: Vec<String> = Vec::new();
    while pending.len() > 0
        invariant
            pending@.len() <= whole.len(),
            pending@ == whole.skip(whole.len() - pending@.len()).reverse(),
            out@ == nonempty_texts(whole.take(whole.len() - pending@.len())),
        decreases pending@.len(),
    {
        let ghost i = whole.len() - pending@.len();
        let ghost before = pending@;
        let item = pending.pop().unwrap();
        proof {
            assert(item == before[before.len() - 1]);
            assert(whole.take(i + 1).drop_last() =~= whole.take(i));
            assert(pending@ =~= whole.skip(whole.len() - pending@.len()).reverse());
        }
        if item.as_str().unicode_len() > 0 {
            out.push(item);
        }
    }
    proof { assert(whole.take(whole.len() as int) =~= whole); }
    out
}


/// Below this many elements a parallel minimum or maximum loses to a
/// sequential one.
pub const PARALLEL_MIN_LEN_REDUCE: usize = 1000000;

/// Below this many elements a parallel sum loses to a sequential one.
pub const PARALLEL_MIN_LEN_SUM: usize = 2000000;

/// The number of threads in rayon's current pool.
///
/// Wraps `rayon::current_num_threads`. The number depends on the machine and
/// the pool, so nothing is stated of it.
#[verifier::external_body]
fn thread_count() -> (r: usize) {
    rayon::current_num_threads()
}

/// Whether a collection of `len` elements is worth handing to a pool of
/// `threads` threads, where `min_len` is the measured crossover for one
/// operation: parallelism wins once `len` reaches `min_len * threads /
/// (threads - 1)`, and a single thread never wins anything back.
pub fn parallel_pays(len: usize, min_len: usize, threads: usize) -> (r: bool)
    ensures
        r == (threads >= 2 && len >= (min_len * threads) / ((threads - 1) as int)),
{
    if threads < 2 {
        return false;
    }
    proof {
        assert((min_len as u128) * (threads as u128) <= 0xffff_ffff_ffff_ffff_ffff_ffff_ffff_ffffu128) by (nonlinear_arith)
            requires min_len <= 0xffff_ffff_ffff_ffffu64, threads <= 0xffff_ffff_ffff_ffffu64;
    }
    let scaled = ((min_len as u128) * (threads as u128)) / ((threads as u128) - 1);
    (len as u128) >= scaled
}

/// Whether a collection of `len` elements is worth handing to rayon for an
/// operation whose crossover is `min_len`. Whatever the pool, it never is
/// below the crossover itself.
fn worth_parallel(len: usize, min_len: usize) -> (r: bool)
    ensures
        r ==> len >= min_len,
{
    let threads = thread_count();
    let r = parallel_pays(len, min_len, threads);
    proof {
        if threads >= 2 {
            assert((min_len * threads) / ((threads - 1) as int) >= min_len) by (nonlinear_arith)
                requires threads >= 2;
        }
    }
    r
}

/// Whether a hand-written fold of this many elements is worth handing to
/// rayon: an integer fold is the cheapest per element, so it takes the
/// largest crossover.
pub fn worth_parallel_fold(len: usize) -> (r: bool)
    ensures
        r ==> len >= PARALLEL_MIN_LEN_SUM,
{
    worth_parallel(len, PARALLEL_MIN_LEN_SUM)
}

/// Where a scan lands that starts at the first element and moves on only to
/// an element above the one it holds: the first of the largest elements.
pub open spec fn largest_at<T: PartialOrd>(s: Seq<T>) -> int
    decreases s.len(),
{
    if s.len() <= 1 {
        0
    } else {
        let best = largest_at(s.drop_last());
        if above(s.last(), s[best]) { s.len() - 1 } else { best }
    }
}

/// Where a scan lands that starts at the first element and moves on only to
/// an element below the one it holds: the first of the smallest elements.
pub open spec fn smallest_at<T: PartialOrd>(s: Seq<T>) -> int
    decreases s.len(),
{
    if s.len() <= 1 {
        0
    } else {
        let best = smallest_at(s.drop_last());
        if below(s.last(), s[best]) { s.len() - 1 } else { best }
    }
}

proof fn lemma_largest_in_range<T: PartialOrd>(s: Seq<T>)
    requires
        s.len() > 0,
    ensures
        0 <= largest_at(s) < s.len(),
    decreases s.len(),
{
    if s.len() > 1 {
        lemma_largest_in_range(s.drop_last());
    }
}

proof fn lemma_smallest_in_range<T: PartialOrd>(s: Seq<T>)
    requires
        s.len() > 0,
    ensures
        0 <= smallest_at(s) < s.len(),
    decreases s.len(),
{
    if s.len() > 1 {
        lemma_smallest_in_range(s.drop_last());
    }
}

proof fn lemma_smallest_is_least<T: PartialOrd>(s: Seq<T>, n: int)
    requires
        orders_weakly(s),
        0 < n <= s.len(),
    ensures
        0 <= smallest_at(s.take(n)) < n,
        forall|j: int| 0 <= j < n ==> !below(#[trigger] s[j], s[smallest_at(s.take(n))]),
    decreases n,
{
    if n > 1 {
        lemma_smallest_is_least(s, n - 1);
        assert(s.take(n).drop_last() =~= s.take(n - 1));
        let b = smallest_at(s.take(n - 1));
        assert(s.take(n)[b] == s[b]);
        assert(s.take(n).last() == s[n - 1]);
        if below(s[n - 1], s[b]) {
            assert forall|j: int| 0 <= j < n implies !below(#[trigger] s[j], s[n - 1]) by {
                if below(s[j], s[n - 1]) {
                    assert(below(s[j], s[b]) || below(s[b], s[n - 1]));
                }
            }
        }
    }
}

proof fn lemma_largest_is_greatest<T: PartialOrd>(s: Seq<T>, n: int)
    requires
        orders_weakly(s),
        0 < n <= s.len(),
    ensures
        0 <= largest_at(s.take(n)) < n,
        forall|j: int| 0 <= j < n ==> !above(#[trigger] s[j], s[largest_at(s.take(n))]),
    decreases n,
{
    if n > 1 {
        lemma_largest_is_greatest(s, n - 1);
        assert(s.take(n).drop_last() =~= s.take(n - 1));
        let b = largest_at(s.take(n - 1));
        assert(s.take(n)[b] == s[b]);
        assert(s.take(n).last() == s[n - 1]);
        if above(s[n - 1], s[b]) {
            assert forall|j: int| 0 <= j < n implies !above(#[trigger] s[j], s[n - 1]) by {
                if above(s[j], s[n - 1]) {
                    assert(above(s[j], s[b]) || above(s[b], s[n - 1]));
                }
            }
        }
    }
}

/// The position of the largest of the first `n` elements, the first of a tie.
fn scan_largest<T: PartialOrd>(arr: &Vec<T>, n: usize) -> (r: usize)
    requires
        0 < n <= arr@.len(),
    ensures
        order_known::<T>() ==> r == largest_at(arr@.take(n as int)),
        r < n,
{
    let mut best: usize = 0;
    let mut i: usize = 1;
    proof { assert(arr@.take(1).len() == 1); }
    while i < n
        invariant
            1 <= i <= n <= arr@.len(),
            best < i,
            order_known::<T>() ==> best == largest_at(arr@.take(i as int)),
        decreases n - i,
    {
        proof {
            assert(arr@.take(i + 1).drop_last() =~= arr@.take(i as int));
            assert(arr@.take(i + 1)[best as int] == arr@[best as int]);
        }
        if greater(&arr[i], &arr[best]) {
            best = i;
        }
        i = i + 1;
    }
    best
}

/// The position of the smallest of the first `n` elements, the first of a tie.
fn scan_smallest<T: PartialOrd>(arr: &Vec<T>, n: usize) -> (r: usize)
    requires
        0 < n <= arr@.len(),
    ensures
        order_known::<T>() ==> r == smallest_at(arr@.take(n as int)),
        r < n,
{
    let mut best: usize = 0;
    let mut i: usize = 1;
    proof { assert(arr@.take(1).len() == 1); }
    while i < n
        invariant
            1 <= i <= n <= arr@.len(),
            best < i,
            order_known::<T>() ==> best == smallest_at(arr@.take(i as int)),
        decreases n - i,
    {
        proof {
            assert(arr@.take(i + 1).drop_last() =~= arr@.take(i as int));
            assert(arr@.take(i + 1)[best as int] == arr@[best as int]);
        }
        if less(&arr[i], &arr[best]) {
            best = i;
        }
        i = i + 1;
    }
    best
}

/// Where the largest element sits. Ties go to the first occurrence; an empty
/// array is an error.
pub fn index_of_max<T: PartialOrd>(arr: &Vec<T>) -> (r: Result<i64, String>)
    ensures
        arr@.len() == 0 ==> (r matches Err(e) && e@ == "array_index_of_max: the array is empty, so there is no largest element"@),
        arr@.len() > 0 ==> (r matches Ok(i) && (order_known::<T>() ==> i == largest_at(arr@) as i64)),
{
    if arr.len() == 0 {
        return Err(String::from_str("array_index_of_max: the array is empty, so there is no largest element"));
    }
    let best = scan_largest(arr, arr.len());
    proof { assert(arr@.take(arr@.len() as int) =~= arr@); }
    Ok(best as i64)
}

/// Where the smallest element sits. Ties go to the first occurrence; an empty
/// array is an error.
pub fn index_of_min<T: PartialOrd>(arr: &Vec<T>) -> (r: Result<i64, String>)
    ensures
        arr@.len() == 0 ==> (r matches Err(e) && e@ == "array_index_of_min: the array is empty, so there is no smallest element"@),
        arr@.len() > 0 ==> (r matches Ok(i) && (order_known::<T>() ==> i == smallest_at(arr@) as i64)),
{
    if arr.len() == 0 {
        return Err(String::from_str("array_index_of_min: the array is empty, so there is no smallest element"));
    }
    let best = scan_smallest(arr, arr.len());
    proof { assert(arr@.take(arr@.len() as int) =~= arr@); }
    Ok(best as i64)
}

/// Whether the element at `i` is at most the one after it.
pub open spec fn in_order_at<T: PartialOrd>(s: Seq<T>, i: int) -> bool {
    at_most(s[i], s[i + 1])
}

/// Whether each element is less than or equal to the next, all the way
/// through. Empty and single-element arrays are sorted.
pub fn is_sorted<T: PartialOrd>(arr: &Vec<T>) -> (r: bool)
    ensures
        order_known::<T>() ==> r == forall|i: int| 0 <= i < arr@.len() - 1 ==> #[trigger] in_order_at(arr@, i),
{
    if arr.len() < 2 {
        return true;
    }
    let n = arr.len();
    let mut i: usize = 0;
    while i + 1 < n
        invariant
            n == arr@.len(),
            i + 1 <= arr@.len(),
            order_known::<T>() ==> forall|k: int| 0 <= k < i ==> #[trigger] in_order_at(arr@, k),
        decreases arr@.len() - i,
    {
        if !no_greater(&arr[i], &arr[i + 1]) {
            proof { assert(order_known::<T>() ==> !in_order_at(arr@, i as int)); }
            return false;
        }
        i = i + 1;
    }
    true
}

/// Whether the element at `i` is level with `item`: neither below nor above it.
pub open spec fn level_with<T: PartialOrd>(x: T, item: T) -> bool {
    !below(x, item) && !above(x, item)
}

/// Whether `s` is partitioned around `item`: everything below it first, then
/// everything level with it, then everything above it. A sorted array is.
pub open spec fn partitioned<T: PartialOrd>(s: Seq<T>, item: T) -> bool {
    exists|p: int, q: int| #[trigger] parts_at(s, item, p, q)
}

/// Whether `s` runs below `item` before `p`, level with it from `p` to `q`,
/// and above it from `q` on.
pub open spec fn parts_at<T: PartialOrd>(s: Seq<T>, item: T, p: int, q: int) -> bool {
    &&& 0 <= p <= q <= s.len()
    &&& forall|j: int| 0 <= j < p ==> below(#[trigger] s[j], item)
    &&& forall|j: int| p <= j < q ==> level_with(#[trigger] s[j], item)
    &&& forall|j: int| q <= j < s.len() ==> above(#[trigger] s[j], item)
}

/// Where in a sorted array the item sits, found by halving the range. The
/// answer is always an element level with the item; when the array is
/// partitioned around the item (a sorted array is), an error means no element
/// is level with it. An unsorted array may get an error for an item it holds.
pub fn binary_search<T: PartialOrd>(arr: &Vec<T>, item: T) -> (r: Result<i64, String>)
    requires
        arr@.len() <= i64::MAX,
    ensures
        r is Err ==> r->Err_0@ == "array_binary_search: the array does not contain that item"@,
        order_known::<T>() && r is Ok ==> 0 <= r->Ok_0 < arr@.len() && level_with(arr@[r->Ok_0 as int], item),
        order_known::<T>() && partitioned(arr@, item) && r is Err ==>
            forall|j: int| 0 <= j < arr@.len() ==> !level_with(#[trigger] arr@[j], item),
{
    let mut low: usize = 0;
    let mut high: usize = arr.len();
    while low < high
        invariant
            low <= high <= arr@.len(),
            arr@.len() <= i64::MAX,
            order_known::<T>() && partitioned(arr@, item) ==>
                forall|j: int| 0 <= j < low ==> below(#[trigger] arr@[j], item),
            order_known::<T>() && partitioned(arr@, item) ==>
                forall|j: int| high <= j < arr@.len() ==> above(#[trigger] arr@[j], item),
        decreases high - low,
    {
        let middle = low + (high - low) / 2;
        if less(&arr[middle], &item) {
            proof {
                if order_known::<T>() && partitioned(arr@, item) {
                    let (p, q) = choose|p: int, q: int| #[trigger] parts_at(arr@, item, p, q);
                    assert(middle < p) by {
                        if middle >= p {
                            if middle < q { assert(level_with(arr@[middle as int], item)); }
                            else { assert(above(arr@[middle as int], item)); }
                        }
                    }
                    assert forall|j: int| 0 <= j < middle + 1 implies below(#[trigger] arr@[j], item) by {
                        if j >= low { assert(j < p); }
                    }
                }
            }
            low = middle + 1;
        } else if greater(&arr[middle], &item) {
            proof {
                if order_known::<T>() && partitioned(arr@, item) {
                    let (p, q) = choose|p: int, q: int| #[trigger] parts_at(arr@, item, p, q);
                    assert(middle >= q) by {
                        if middle < q {
                            if middle >= p { assert(level_with(arr@[middle as int], item)); }
                            else { assert(below(arr@[middle as int], item)); }
                        }
                    }
                }
            }
            high = middle;
        } else {
            return Ok(middle as i64);
        }
    }
    Err(String::from_str("array_binary_search: the array does not contain that item"))
}


/// Whether `p` is a place to put `item` into `s`: everything before it is
/// not above the item, and the element at it is above the item.
pub open spec fn fits_at<T: PartialOrd>(s: Seq<T>, item: T, p: int) -> bool {
    &&& 0 <= p <= s.len()
    &&& p > 0 ==> !above(s[p - 1], item)
    &&& p < s.len() ==> above(s[p], item)
}

/// The place the halving search for `item` ends at.
fn place_for<T: PartialOrd>(arr: &Vec<T>, item: &T) -> (r: usize)
    ensures
        r <= arr@.len(),
        order_known::<T>() ==> fits_at(arr@, *item, r as int),
{
    let mut low: usize = 0;
    let mut high: usize = arr.len();
    while low < high
        invariant
            low <= high <= arr@.len(),
            order_known::<T>() ==> (low > 0 ==> !above(arr@[low - 1], *item)),
            order_known::<T>() ==> (high < arr@.len() ==> above(arr@[high as int], *item)),
        decreases high - low,
    {
        let middle = low + (high - low) / 2;
        if greater(&arr[middle], item) {
            high = middle;
        } else {
            low = middle + 1;
        }
    }
    low
}

/// The position the item would go into a sorted array at: past every element
/// not above it, so equal values keep the order they arrived in. For a sorted
/// array this is how many elements are not above the item.
pub fn insertion_point<T: PartialOrd>(arr: &Vec<T>, item: T) -> (r: i64)
    requires
        arr@.len() <= i64::MAX,
    ensures
        0 <= r <= arr@.len(),
        order_known::<T>() ==> fits_at(arr@, item, r as int),
{
    place_for(arr, &item) as i64
}

/// The sorted array with one more item in it, put in at its insertion point.
pub fn insert_sorted<T: PartialOrd + Clone>(arr: Vec<T>, item: T) -> (r: Vec<T>)
    ensures
        exists|p: int| 0 <= p <= arr@.len() && r@ == arr@.insert(p, item)
            && (order_known::<T>() ==> #[trigger] fits_at(arr@, item, p)),
{
    let at = place_for(&arr, &item);
    let ghost before = arr@;
    let mut out = arr;
    out.insert(at, item);
    proof { assert(fits_at(before, item, at as int) || !order_known::<T>()); }
    out
}

/// The smallest element, found in parallel.
///
/// Wraps rayon's `par_iter().reduce_with` over references, with a reducer
/// that only calls `smaller`, followed by `Option::cloned`. Each step of the
/// reduction keeps one of the two elements it is handed, so what comes out
/// is a clone of some element; rayon documents `None` exactly for an empty
/// iterator. Every element goes into the reduction once, so when `<` orders
/// the elements weakly, whatever grouping rayon takes, no element is below
/// the one that comes out. Which of several equal least elements comes out is
/// left unstated, as rayon leaves the grouping open.
#[verifier::external_body]
fn least_in_parallel<T: PartialOrd + Clone + Sync>(arr: &Vec<T>) -> (r: Option<T>)
    ensures
        r is Some <==> arr@.len() > 0,
        r matches Some(x) ==> exists|i: int| 0 <= i < arr@.len() && cloned(#[trigger] arr@[i], x)
            && (order_known::<T>() && orders_weakly(arr@) ==> forall|j: int| 0 <= j < arr@.len() ==> !below(
                #[trigger] arr@[j],
                arr@[i],
            )),
{
    arr.par_iter().reduce_with(|a, b| smaller(a, b)).cloned()
}

/// The largest element, found in parallel.
///
/// Wraps rayon's `par_iter().reduce_with` over references, with a reducer
/// that only calls `larger`, followed by `Option::cloned`; the same claims as
/// `least_in_parallel`, with no element above the one that comes out when `>`
/// orders the elements weakly.
#[verifier::external_body]
fn greatest_in_parallel<T: PartialOrd + Clone + Sync>(arr: &Vec<T>) -> (r: Option<T>)
    ensures
        r is Some <==> arr@.len() > 0,
        r matches Some(x) ==> exists|i: int| 0 <= i < arr@.len() && cloned(#[trigger] arr@[i], x)
            && (order_known::<T>() && orders_weakly(arr@) ==> forall|j: int| 0 <= j < arr@.len() ==> !above(
                #[trigger] arr@[j],
                arr@[i],
            )),
{
    arr.par_iter().reduce_with(|a, b| larger(a, b)).cloned()
}

/// The smallest element. Large arrays are searched in parallel; below the
/// crossover the answer is the first of the smallest elements.
pub fn min<T: Clone + Send + Sync + PartialOrd>(arr: &Vec<T>) -> (r: Result<T, String>)
    ensures
        arr@.len() == 0 ==> (r matches Err(e) && e@ == "array_min: cannot get the minimum of an empty array"@),
        arr@.len() > 0 ==> (r matches Ok(x) && exists|i: int| 0 <= i < arr@.len() && cloned(#[trigger] arr@[i], x)
            && (order_known::<T>() && orders_weakly(arr@) ==> forall|j: int| 0 <= j < arr@.len() ==> !below(
                #[trigger] arr@[j],
                arr@[i],
            ))),
        0 < arr@.len() < PARALLEL_MIN_LEN_REDUCE && order_known::<T>() ==>
            (r matches Ok(x) && cloned(arr@[smallest_at(arr@)], x)),
{
    if arr.len() == 0 {
        return Err(String::from_str("array_min: cannot get the minimum of an empty array"));
    }
    if worth_parallel(arr.len(), PARALLEL_MIN_LEN_REDUCE) {
        return match least_in_parallel(arr) {
            Some(x) => Ok(x),
            None => Err(String::from_str("array_min: cannot get the minimum of an empty array")),
        };
    }
    let best = scan_smallest(arr, arr.len());
    proof {
        assert(arr@.take(arr@.len() as int) =~= arr@);
        if order_known::<T>() && orders_weakly(arr@) {
            lemma_smallest_is_least(arr@, arr@.len() as int);
        }
    }
    Ok(arr[best].clone())
}

/// The largest element. Large arrays are searched in parallel; below the
/// crossover the answer is the first of the largest elements.
pub fn max<T: Clone + Send + Sync + PartialOrd>(arr: &Vec<T>) -> (r: Result<T, String>)
    ensures
        arr@.len() == 0 ==> (r matches Err(e) && e@ == "array_max: cannot get the maximum of an empty array"@),
        arr@.len() > 0 ==> (r matches Ok(x) && exists|i: int| 0 <= i < arr@.len() && cloned(#[trigger] arr@[i], x)
            && (order_known::<T>() && orders_weakly(arr@) ==> forall|j: int| 0 <= j < arr@.len() ==> !above(
                #[trigger] arr@[j],
                arr@[i],
            ))),
        0 < arr@.len() < PARALLEL_MIN_LEN_REDUCE && order_known::<T>() ==>
            (r matches Ok(x) && cloned(arr@[largest_at(arr@)], x)),
{
    if arr.len() == 0 {
        return Err(String::from_str("array_max: cannot get the maximum of an empty array"));
    }
    if worth_parallel(arr.len(), PARALLEL_MIN_LEN_REDUCE) {
        return match greatest_in_parallel(arr) {
            Some(x) => Ok(x),
            None => Err(String::from_str("array_max: cannot get the maximum of an empty array")),
        };
    }
    let best = scan_largest(arr, arr.len());
    proof {
        assert(arr@.take(arr@.len() as int) =~= arr@);
        if order_known::<T>() && orders_weakly(arr@) {
            lemma_largest_is_greatest(arr@, arr@.len() as int);
        }
    }
    Ok(arr[best].clone())
}

/// The element whose key is smallest, keys and elements paired in order as
/// far as the shorter goes; the first of a tie.
pub fn min_by_keys<T: Clone, K: PartialOrd>(arr: Vec<T>, keys: Vec<K>) -> (r: Result<T, String>)
    ensures
        (arr@.len() == 0 || keys@.len() == 0) ==> (r matches Err(e)
            && e@ == "array_min_by: the array is empty, so there is no smallest element"@),
        (arr@.len() > 0 && keys@.len() > 0) ==> (r matches Ok(x)
            && exists|p: int| 0 <= p < arr@.len() && p < keys@.len() && x == #[trigger] arr@[p]
                && (order_known::<K>() ==> p == smallest_at(keys@.take(if arr@.len() <= keys@.len() { arr@.len() as int } else { keys@.len() as int })))),
{
    let n = if arr.len() <= keys.len() { arr.len() } else { keys.len() };
    if n == 0 {
        return Err(String::from_str("array_min_by: the array is empty, so there is no smallest element"));
    }
    let p = scan_smallest(&keys, n);
    let ghost before = arr@;
    let mut items = arr;
    let x = items.swap_remove(p);
    proof { assert(x == before[p as int]); }
    Ok(x)
}

/// The element whose key is largest, keys and elements paired in order as far
/// as the shorter goes; the first of a tie.
pub fn max_by_keys<T: Clone, K: PartialOrd>(arr: Vec<T>, keys: Vec<K>) -> (r: Result<T, String>)
    ensures
        (arr@.len() == 0 || keys@.len() == 0) ==> (r matches Err(e)
            && e@ == "array_max_by: the array is empty, so there is no largest element"@),
        (arr@.len() > 0 && keys@.len() > 0) ==> (r matches Ok(x)
            && exists|p: int| 0 <= p < arr@.len() && p < keys@.len() && x == #[trigger] arr@[p]
                && (order_known::<K>() ==> p == largest_at(keys@.take(if arr@.len() <= keys@.len() { arr@.len() as int } else { keys@.len() as int })))),
{
    let n = if arr.len() <= keys.len() { arr.len() } else { keys.len() };
    if n == 0 {
        return Err(String::from_str("array_max_by: the array is empty, so there is no largest element"));
    }
    let p = scan_largest(&keys, n);
    let ghost before = arr@;
    let mut items = arr;
    let x = items.swap_remove(p);
    proof { assert(x == before[p as int]); }
    Ok(x)
}

/// Sorts an array in parallel, stably.
///
/// Wraps rayon's `par_sort` (`ParallelSliceMut`), which rayon documents as a
/// stable sort of the slice by the element type's `Ord`: the elements are
/// the same ones, rearranged into order.
#[verifier::external_body]
fn sort_in_parallel<T: Ord + Send>(arr: &mut Vec<T>)
    ensures
        final(arr)@.to_multiset() == old(arr)@.to_multiset(),
        T::obeys_cmp_spec() ==> forall|i: int, j: int| #![trigger final(arr)@[i], final(arr)@[j]] 0 <= i < j < final(arr)@.len() ==>
            final(arr)@[i].cmp_spec(&final(arr)@[j]) != Ordering::Greater,
{
    arr.par_sort();
}

/// The array sorted by the element type's order, smallest first.
pub fn sort<T: Ord + Clone + Send>(arr: Vec<T>) -> (r: Vec<T>)
    ensures
        r@.to_multiset() == arr@.to_multiset(),
        T::obeys_cmp_spec() ==> forall|i: int, j: int| #![trigger r@[i], r@[j]] 0 <= i < j < r@.len() ==>
            r@[i].cmp_spec(&r@[j]) != Ordering::Greater,
{
    let mut out = arr;
    sort_in_parallel(&mut out);
    out
}


/// Shuffles an array in place with the thread's random generator.
///
/// Wraps `rand::seq::SliceRandom::shuffle` with `rand::thread_rng()`: the
/// source swaps each element with one at a random index, so the elements are
/// the same ones in some order. Which order is chance and is left unstated.
#[verifier::external_body]
fn shuffle_in_place<T>(arr: &mut Vec<T>)
    ensures
        final(arr)@.to_multiset() == old(arr)@.to_multiset(),
{
    let mut rng = rand::thread_rng();
    arr.as_mut_slice().shuffle(&mut rng);
}

/// The array in a random order: the same elements, each once.
pub fn shuffle<T: Clone>(arr: Vec<T>) -> (r: Vec<T>)
    ensures
        r@.to_multiset() == arr@.to_multiset(),
{
    let mut out = arr;
    shuffle_in_place(&mut out);
    out
}

/// Texts joined with a separator between each neighbouring pair.
pub open spec fn joined_texts(parts: Seq<Seq<char>>, separator: Seq<char>) -> Seq<char>
    decreases parts.len(),
{
    if parts.len() == 0 {
        Seq::empty()
    } else if parts.len() == 1 {
        parts[0]
    } else {
        joined_texts(parts.drop_last(), separator) + separator + parts.last()
    }
}

/// The texts one after another with the separator between each pair, as
/// `[String]::join` writes them.
pub fn join_texts(parts: &Vec<String>, separator: &str) -> (r: String)
    ensures
        r@ == joined_texts(parts@.map_values(|p: String| p@), separator@),
{
    let ghost views = parts@.map_values(|p: String| p@);
    let mut out = String::new();
    let mut i: usize = 0;
    while i < parts.len()
        invariant
            i <= parts@.len(),
            views == parts@.map_values(|p: String| p@),
            out@ == joined_texts(views.take(i as int), separator@),
        decreases parts@.len() - i,
    {
        proof {
            assert(views.take(i + 1).drop_last() =~= views.take(i as int));
            assert(views.take(i + 1).last() == parts@[i as int]@);
        }
        if i > 0 {
            out.append(separator);
        }
        out.append(parts[i].as_str());
        proof {
            if i == 0 {
                assert(views.take(1) =~= seq![parts@[0]@]);
            }
        }
        i = i + 1;
    }
    proof { assert(views.take(parts@.len() as int) =~= views); }
    out
}


/// How an element is written by its `Display`.
fn display_text<T: std::fmt::Display>(item: &T) -> (r: String)
    ensures
        vstd::string::to_string_from_display_ensures::<T>(item, r),
{
    item.to_string()
}

/// Whether `parts` is each element of `s` as its `Display` writes it.
pub open spec fn written_as<T: std::fmt::Display>(s: Seq<T>, parts: Seq<String>) -> bool {
    &&& parts.len() == s.len()
    &&& forall|i: int| 0 <= i < s.len() ==> vstd::string::to_string_from_display_ensures::<T>(&s[i], #[trigger] parts[i])
}

/// Writes each element by its `Display`, in parallel.
///
/// Wraps rayon's `par_iter().map(..).collect::<Vec<String>>()`, with a map
/// that only calls `display_text`. Rayon documents that collecting an indexed
/// parallel iterator into a vector keeps the items in their order.
#[verifier::external_body]
fn displayed_in_parallel<T: std::fmt::Display + Sync>(arr: &Vec<T>) -> (r: Vec<String>)
    ensures
        written_as(arr@, r@),
{
    arr.par_iter().map(|item| display_text(item)).collect()
}

/// The elements written out by their `Display`, with the separator between
/// each neighbouring pair.
pub fn join<T: std::fmt::Display + Send + Sync>(arr: &Vec<T>, separator: String) -> (r: String)
    ensures
        exists|parts: Seq<String>| #[trigger] written_as(arr@, parts)
            && r@ == joined_texts(parts.map_values(|p: String| p@), separator@),
{
    let parts = displayed_in_parallel(arr);
    let r = join_texts(&parts, separator.as_str());
    proof { assert(written_as(arr@, parts@)); }
    r
}


/// Every ordering of the items of `left`: each item in turn first, followed
/// by every ordering of the others.
pub open spec fn orders(left: Seq<usize>) -> Seq<Seq<usize>>
    decreases left.len(), 1int, 0int,
{
    if left.len() == 0 {
        seq![Seq::empty()]
    } else {
        orders_upto(left, left.len() as int)
    }
}

/// The orderings of `left` that start with one of its first `p` items.
pub open spec fn orders_upto(left: Seq<usize>, p: int) -> Seq<Seq<usize>>
    decreases left.len(), 0int, p,
{
    if p <= 0 || p > left.len() {
        Seq::empty()
    } else {
        orders_upto(left, p - 1) + led_by(seq![left[p - 1]], orders(left.remove(p - 1)))
    }
}

/// Each of `qs` with `pre` in front.
pub open spec fn led_by(pre: Seq<usize>, qs: Seq<Seq<usize>>) -> Seq<Seq<usize>> {
    Seq::new(qs.len(), |t: int| pre + qs[t])
}

/// The rows of an array of index arrays.
pub open spec fn rows(v: Seq<Vec<usize>>) -> Seq<Seq<usize>> {
    Seq::new(v.len(), |t: int| v[t]@)
}

/// `n!`.
pub open spec fn factorial(n: nat) -> nat
    decreases n,
{
    if n == 0 { 1 } else { n * factorial((n - 1) as nat) }
}

/// The positions `0` to `n - 1`, in order.
pub open spec fn positions(n: nat) -> Seq<usize> {
    Seq::new(n, |k: int| k as usize)
}

proof fn lemma_led_by_concat(pre: Seq<usize>, a: Seq<Seq<usize>>, b: Seq<Seq<usize>>)
    ensures
        led_by(pre, a + b) == led_by(pre, a) + led_by(pre, b),
{
    assert(led_by(pre, a + b) =~= led_by(pre, a) + led_by(pre, b));
}

proof fn lemma_led_by_led_by(pre: Seq<usize>, x: usize, qs: Seq<Seq<usize>>)
    ensures
        led_by(pre, led_by(seq![x], qs)) == led_by(pre.push(x), qs),
{
    assert forall|t: int| 0 <= t < qs.len() implies #[trigger] led_by(pre, led_by(seq![x], qs))[t] == led_by(pre.push(x), qs)[t] by {
        assert(pre + (seq![x] + qs[t]) =~= pre.push(x) + qs[t]);
    }
    assert(led_by(pre, led_by(seq![x], qs)) =~= led_by(pre.push(x), qs));
}

/// A copy of an index array.
fn copy_indices(v: &Vec<usize>) -> (r: Vec<usize>)
    ensures
        r@ == v@,
{
    let mut out: Vec<usize> = Vec::new();
    let mut i: usize = 0;
    while i < v.len()
        invariant
            i <= v@.len(),
            out@ == v@.take(i as int),
        decreases v@.len() - i,
    {
        out.push(v[i]);
        proof { assert(out@ =~= v@.take(i + 1)); }
        i = i + 1;
    }
    proof { assert(v@.take(v@.len() as int) =~= v@); }
    out
}

/// Adds every ordering of `left`, each after `chosen`, to `produced`: each
/// remaining item in turn is taken as the next one chosen.
fn fill_orders(left: &mut Vec<usize>, chosen: &mut Vec<usize>, produced: &mut Vec<Vec<usize>>)
    ensures
        final(left)@ == old(left)@,
        final(chosen)@ == old(chosen)@,
        rows(final(produced)@) == rows(old(produced)@) + led_by(old(chosen)@, orders(old(left)@)),
    decreases old(left)@.len(),
{
    let ghost start_left = left@;
    let ghost start_chosen = chosen@;
    let ghost start_rows = rows(produced@);
    if left.len() == 0 {
        let row = copy_indices(chosen);
        produced.push(row);
        proof {
            assert(led_by(start_chosen, orders(start_left)) =~= seq![start_chosen]);
            assert(rows(produced@) =~= start_rows + led_by(start_chosen, orders(start_left)));
        }
        return;
    }
    let mut position: usize = 0;
    proof { assert(rows(produced@) =~= start_rows + led_by(start_chosen, orders_upto(start_left, 0))); }
    while position < left.len()
        invariant
            left@ == start_left,
            start_left == old(left)@,
            chosen@ == start_chosen,
            start_left.len() > 0,
            position <= start_left.len(),
            rows(produced@) == start_rows + led_by(start_chosen, orders_upto(start_left, position as int)),
        decreases start_left.len() - position,
    {
        let item = left.remove(position);
        chosen.push(item);
        let ghost mid_rows = rows(produced@);
        fill_orders(left, chosen, produced);
        let _ = chosen.pop();
        left.insert(position, item);
        proof {
            assert(left@ =~= start_left);
            assert(chosen@ =~= start_chosen);
            let block = led_by(seq![item], orders(start_left.remove(position as int)));
            assert(orders_upto(start_left, position + 1) == orders_upto(start_left, position as int) + block);
            lemma_led_by_concat(start_chosen, orders_upto(start_left, position as int), block);
            lemma_led_by_led_by(start_chosen, item, orders(start_left.remove(position as int)));
        }
        position = position + 1;
    }
    proof { assert(orders(start_left) == orders_upto(start_left, start_left.len() as int)); }
}


/// Whether every item of `s` is below `n`.
pub open spec fn all_below(s: Seq<usize>, n: nat) -> bool {
    forall|k: int| 0 <= k < s.len() ==> (#[trigger] s[k]) < n
}

/// Whether every one of `qs` has `len` items, each below `n`.
pub open spec fn shaped(qs: Seq<Seq<usize>>, len: nat, n: nat) -> bool {
    forall|t: int| 0 <= t < qs.len() ==> (#[trigger] qs[t]).len() == len && all_below(qs[t], n)
}

proof fn lemma_orders_shape(left: Seq<usize>, n: nat)
    requires
        all_below(left, n),
    ensures
        shaped(orders(left), left.len(), n),
        orders(left).len() == factorial(left.len()),
    decreases left.len(), 1int,
{
    if left.len() == 0 {
        assert(orders(left) =~= seq![Seq::<usize>::empty()]);
    } else {
        lemma_orders_upto_shape(left, n, left.len() as int);
        assert(factorial(left.len()) == left.len() * factorial((left.len() - 1) as nat));
    }
}

proof fn lemma_orders_upto_shape(left: Seq<usize>, n: nat, p: int)
    requires
        all_below(left, n),
        left.len() > 0,
        0 <= p <= left.len(),
    ensures
        shaped(orders_upto(left, p), left.len(), n),
        orders_upto(left, p).len() == p * factorial((left.len() - 1) as nat),
    decreases left.len(), 0int, p,
{
    if p > 0 {
        lemma_orders_upto_shape(left, n, p - 1);
        let rest = left.remove(p - 1);
        assert forall|k: int| 0 <= k < rest.len() implies (#[trigger] rest[k]) < n by {
            if k < p - 1 { assert(rest[k] == left[k]); } else { assert(rest[k] == left[k + 1]); }
        }
        lemma_orders_shape(rest, n);
        let block = led_by(seq![left[p - 1]], orders(rest));
        assert forall|t: int| 0 <= t < block.len() implies (#[trigger] block[t]).len() == left.len() && all_below(block[t], n) by {
            let q = orders(rest)[t];
            assert(block[t] == seq![left[p - 1]] + q);
            assert forall|k: int| 0 <= k < block[t].len() implies (#[trigger] block[t][k]) < n by {
                if k == 0 { assert(block[t][k] == left[p - 1]); } else { assert(block[t][k] == q[k - 1]); }
            }
        }
        let before = orders_upto(left, p - 1);
        assert(orders_upto(left, p) == before + block);
        assert forall|t: int| 0 <= t < (before + block).len() implies (#[trigger] (before + block)[t]).len() == left.len() && all_below((before + block)[t], n) by {
            if t < before.len() { assert((before + block)[t] == before[t]); } else { assert((before + block)[t] == block[t - before.len()]); }
        }
        assert(p * factorial((left.len() - 1) as nat) == (p - 1) * factorial((left.len() - 1) as nat) + factorial((left.len() - 1) as nat)) by (nonlinear_arith);
    }
}


proof fn lemma_factorial_grows(a: nat, b: nat)
    requires
        a <= b,
    ensures
        factorial(a) <= factorial(b),
        factorial(a) >= 1,
    decreases b,
{
    if b == 0 {
    } else if a == b {
        lemma_factorial_grows(0, (b - 1) as nat);
        assert(factorial(b) == b * factorial((b - 1) as nat));
        assert(factorial(b) >= 1) by (nonlinear_arith)
            requires factorial(b) == b * factorial((b - 1) as nat), b >= 1, factorial((b - 1) as nat) >= 1;
    } else {
        lemma_factorial_grows(a, (b - 1) as nat);
        assert(factorial(b) == b * factorial((b - 1) as nat));
        assert(factorial(b) >= factorial((b - 1) as nat)) by (nonlinear_arith)
            requires factorial(b) == b * factorial((b - 1) as nat), b >= 1, factorial((b - 1) as nat) >= 1;
    }
}

proof fn lemma_ten_factorial()
    ensures
        factorial(10) == 3628800,
{
    assert(factorial(0) == 1);
    assert(factorial(1) == 1);
    assert(factorial(2) == 2);
    assert(factorial(3) == 6);
    assert(factorial(4) == 24);
    assert(factorial(5) == 120);
    assert(factorial(6) == 720);
    assert(factorial(7) == 5040);
    assert(factorial(8) == 40320);
    assert(factorial(9) == 362880);
    assert(factorial(10) == 3628800);
}

/// The clones of the elements at the positions a row names.
fn picked<T: Clone>(arr: &Vec<T>, row: &Vec<usize>) -> (r: Vec<T>)
    requires
        all_below(row@, arr@.len()),
    ensures
        r@.len() == row@.len(),
        forall|k: int| 0 <= k < row@.len() ==> cloned(arr@[row@[k] as int], #[trigger] r@[k]),
{
    let mut out: Vec<T> = Vec::new();
    let mut k: usize = 0;
    while k < row.len()
        invariant
            k <= row@.len(),
            all_below(row@, arr@.len()),
            out@.len() == k,
            forall|j: int| 0 <= j < k ==> cloned(arr@[row@[j] as int], #[trigger] out@[j]),
        decreases row@.len() - k,
    {
        let at = row[k];
        out.push(arr[at].clone());
        k = k + 1;
    }
    out
}

/// Every ordering of the elements, as the orderings of their positions come:
/// each element in turn first, then every ordering of the rest. More than a
/// million orderings are refused rather than built.
pub fn permutations<T: Clone>(arr: &Vec<T>) -> (r: Result<Vec<Vec<T>>, String>)
    ensures
        factorial(arr@.len()) > LARGEST_PRODUCED_COUNT ==> (r matches Err(e)
            && e@ == "array_permutations: "@ + int_text(arr@.len() as int) + " elements have more orderings than the "@
                + int_text(LARGEST_PRODUCED_COUNT as int) + " this will build"@),
        factorial(arr@.len()) <= LARGEST_PRODUCED_COUNT ==> (r matches Ok(v)
            && v@.len() == factorial(arr@.len())
            && forall|t: int| 0 <= t < v@.len() ==> (#[trigger] v@[t])@.len() == arr@.len()
                && forall|k: int| 0 <= k < arr@.len() ==>
                    cloned(arr@[orders(positions(arr@.len()))[t][k] as int], #[trigger] v@[t]@[k])),
{
    let n = arr.len();
    let mut total: u128 = 1;
    let mut step: usize = 1;
    proof { lemma_ten_factorial(); }
    while step <= n
        invariant
            n == arr@.len(),
            1 <= step <= 11,
            step <= n + 1,
            total == factorial((step - 1) as nat),
            total <= LARGEST_PRODUCED_COUNT,
            factorial(10) == 3628800,
        decreases n + 1 - step,
    {
        proof {
            assert(factorial(step as nat) == step * factorial((step - 1) as nat));
            assert(total * (step as u128) <= 11 * LARGEST_PRODUCED_COUNT) by (nonlinear_arith)
                requires total <= LARGEST_PRODUCED_COUNT, step <= 11;
            assert(total * step == factorial(step as nat)) by (nonlinear_arith)
                requires total == factorial((step - 1) as nat), factorial(step as nat) == step * factorial((step - 1) as nat);
        }
        total = total * (step as u128);
        if total > LARGEST_PRODUCED_COUNT as u128 {
            proof { lemma_factorial_grows(step as nat, n as nat); }
            let mut m = String::from_str("array_permutations: ");
            m.append(usize_to_text(n).as_str());
            m.append(" elements have more orderings than the ");
            m.append(usize_to_text(LARGEST_PRODUCED_COUNT).as_str());
            m.append(" this will build");
            return Err(m);
        }
        proof {
            if step >= 10 {
                lemma_factorial_grows(10, step as nat);
            }
        }
        step = step + 1;
    }
    let mut left: Vec<usize> = Vec::new();
    let mut i: usize = 0;
    while i < n
        invariant
            i <= n,
            left@ == positions(i as nat),
        decreases n - i,
    {
        left.push(i);
        proof { assert(left@ =~= positions((i + 1) as nat)); }
        i = i + 1;
    }
    let ghost all = positions(n as nat);
    let mut chosen: Vec<usize> = Vec::new();
    let mut produced: Vec<Vec<usize>> = Vec::new();
    proof { assert(rows(produced@) =~= Seq::<Seq<usize>>::empty()); }
    fill_orders(&mut left, &mut chosen, &mut produced);
    proof {
        assert(led_by(Seq::<usize>::empty(), orders(all)) =~= orders(all));
        assert(rows(produced@) =~= orders(all));
        lemma_orders_shape(all, n as nat);
    }
    let mut out: Vec<Vec<T>> = Vec::new();
    let mut t: usize = 0;
    while t < produced.len()
        invariant
            n == arr@.len(),
            rows(produced@) == orders(all),
            all == positions(n as nat),
            shaped(orders(all), n as nat, n as nat),
            t <= produced@.len(),
            out@.len() == t,
            forall|u: int| 0 <= u < t ==> (#[trigger] out@[u])@.len() == n
                && forall|k: int| 0 <= k < n ==> cloned(arr@[orders(all)[u][k] as int], #[trigger] out@[u]@[k]),
        decreases produced@.len() - t,
    {
        proof { assert(produced@[t as int]@ == rows(produced@)[t as int]); }
        let row = picked(arr, &produced[t]);
        out.push(row);
        t = t + 1;
    }
    proof { assert(produced@.len() == rows(produced@).len()); }
    Ok(out)
}


/// The number of ways to choose `k` of `n` things, by Pascal's rule.
pub open spec fn binomial(n: nat, k: nat) -> nat
    decreases n,
{
    if k == 0 {
        1
    } else if n == 0 {
        0
    } else {
        binomial((n - 1) as nat, (k - 1) as nat) + binomial((n - 1) as nat, k)
    }
}

/// Every strictly increasing choice of `k` positions from `start` up to
/// `n`, in the order their positions read: those that take `start` first,
/// then those that leave it out.
pub open spec fn choices(start: nat, n: nat, k: nat) -> Seq<Seq<usize>>
    decreases n - start,
{
    if k == 0 {
        seq![Seq::empty()]
    } else if start + k > n {
        Seq::empty()
    } else {
        led_by(seq![start as usize], choices(start + 1, n, (k - 1) as nat)) + choices(start + 1, n, k)
    }
}

/// Whether the positions rise strictly, each below `n`.
pub open spec fn rising_below(s: Seq<usize>, low: nat, n: nat) -> bool {
    &&& forall|i: int| 0 <= i < s.len() ==> low <= #[trigger] s[i] < n
    &&& forall|i: int, j: int| 0 <= i < j < s.len() ==> s[i] < s[j]
}

proof fn lemma_binomial_zero(n: nat, k: nat)
    requires
        k > n,
    ensures
        binomial(n, k) == 0,
    decreases n,
{
    if n > 0 {
        lemma_binomial_zero((n - 1) as nat, (k - 1) as nat);
        lemma_binomial_zero((n - 1) as nat, k);
    }
}

/// Choosing `k` of `n` is choosing the `n - k` left out.
proof fn lemma_binomial_symmetric(n: nat, k: nat)
    requires
        k <= n,
    ensures
        binomial(n, k) == binomial(n, (n - k) as nat),
    decreases n,
{
    if k == 0 {
        lemma_binomial_all(n);
    } else if n > 0 && k < n {
        lemma_binomial_symmetric((n - 1) as nat, (k - 1) as nat);
        lemma_binomial_symmetric((n - 1) as nat, k);
        assert(binomial(n, (n - k) as nat) == binomial((n - 1) as nat, (n - k - 1) as nat) + binomial(
            (n - 1) as nat,
            (n - k) as nat,
        ));
    } else if n > 0 && k == n {
        lemma_binomial_zero((n - 1) as nat, n);
        lemma_binomial_all((n - 1) as nat);
    }
}

proof fn lemma_binomial_all(n: nat)
    ensures
        binomial(n, n) == 1,
    decreases n,
{
    if n > 0 {
        lemma_binomial_all((n - 1) as nat);
        lemma_binomial_zero((n - 1) as nat, n);
    }
}

/// The step from choosing `j` to choosing `j + 1`:
/// `(j + 1) * C(n, j + 1) == (n - j) * C(n, j)`.
proof fn lemma_binomial_step(n: nat, j: nat)
    ensures
        (j + 1) * binomial(n, j + 1) == (n - j) * binomial(n, j),
    decreases n, j,
{
    if j >= n {
        lemma_binomial_zero(n, j + 1);
        if j > n {
            lemma_binomial_zero(n, j);
        }
        assert((j + 1) * binomial(n, j + 1) == 0) by (nonlinear_arith)
            requires binomial(n, j + 1) == 0;
        assert((n - j) * binomial(n, j) == 0) by (nonlinear_arith)
            requires j == n || binomial(n, j) == 0;
    } else if n == 0 {
        assert(binomial(0, j + 1) == 0);
        if j > 0 {
            assert(binomial(0, j) == 0);
        }
        assert((n - j) * binomial(n, j) == 0) by (nonlinear_arith)
            requires n == 0, j == 0 || binomial(n, j) == 0;
    } else {
        let m = (n - 1) as nat;
        lemma_binomial_step(m, j);
        assert(binomial(n, j + 1) == binomial(m, j) + binomial(m, j + 1));
        if j == 0 {
            assert(binomial(n, j) == 1);
            assert(binomial(m, 0) == 1);
            assert(binomial(m, 1) == m) by (nonlinear_arith)
                requires (0 + 1) * binomial(m, 0 + 1) == (m - 0) * binomial(m, 0), binomial(m, 0) == 1;
            assert((j + 1) * binomial(n, j + 1) == (n - j) * binomial(n, j)) by (nonlinear_arith)
                requires j == 0, binomial(n, j + 1) == 1 + binomial(m, 1), binomial(m, 1) == m, n == m + 1,
                    binomial(n, j) == 1;
        } else {
            lemma_binomial_step(m, (j - 1) as nat);
            let a = binomial(m, (j - 1) as nat);
            let b = binomial(m, j);
            let c = binomial(m, j + 1);
            assert(binomial(n, j) == a + b);
            assert((j + 1) * (b + c) == (n - j) * (a + b)) by (nonlinear_arith)
                requires (j + 1) * c == (m - j) * b, j * b == (m - (j - 1)) * a, n == m + 1;
        }
    }
}

/// Choosing a little more, up to half, never gives fewer ways.
proof fn lemma_binomial_grows(n: nat, j: nat, k: nat)
    requires
        j <= k,
        2 * k <= n,
    ensures
        binomial(n, j) <= binomial(n, k),
    decreases k - j,
{
    if j < k {
        lemma_binomial_grows(n, j + 1, k);
        lemma_binomial_step(n, j);
        assert(binomial(n, j) <= binomial(n, j + 1)) by (nonlinear_arith)
            requires (j + 1) * binomial(n, j + 1) == (n - j) * binomial(n, j), n - j >= j + 1;
    }
}

/// The choices count as Pascal's rule does, and each rises strictly, from
/// `start` up, below `n`, with `k` positions.
pub proof fn lemma_choices_shape(start: nat, n: nat, k: nat)
    requires
        n <= usize::MAX + 1,
    ensures
        choices(start, n, k).len() == binomial(if start < n { (n - start) as nat } else { 0 }, k),
        forall|t: int| 0 <= t < choices(start, n, k).len() ==> (#[trigger] choices(start, n, k)[t]).len() == k
            && rising_below(choices(start, n, k)[t], start, n),
    decreases n - start,
{
    if k == 0 {
    } else if start + k > n {
        if start < n {
            lemma_binomial_zero((n - start) as nat, k);
        }
    } else {
        lemma_choices_shape(start + 1, n, (k - 1) as nat);
        lemma_choices_shape(start + 1, n, k);
        let taken = led_by(seq![start as usize], choices(start + 1, n, (k - 1) as nat));
        let left = choices(start + 1, n, k);
        let all = taken + left;
        assert(binomial((n - start) as nat, k) == binomial((n - start - 1) as nat, (k - 1) as nat) + binomial(
            (n - start - 1) as nat,
            k,
        ));
        assert forall|t: int| 0 <= t < all.len() implies (#[trigger] all[t]).len() == k && rising_below(
            all[t],
            start,
            n,
        ) by {
            if t < taken.len() {
                let q = choices(start + 1, n, (k - 1) as nat)[t];
                assert(all[t] == seq![start as usize] + q);
                assert forall|i: int| 0 <= i < all[t].len() implies start <= #[trigger] all[t][i] < n by {
                    if i > 0 {
                        assert(all[t][i] == q[i - 1]);
                    }
                }
                assert forall|i: int, j: int| 0 <= i < j < all[t].len() implies all[t][i] < all[t][j] by {
                    assert(all[t][j] == q[j - 1]);
                    if i > 0 {
                        assert(all[t][i] == q[i - 1]);
                    }
                }
            } else {
                assert(all[t] == left[t - taken.len()]);
            }
        }
    }
}

/// Every way of choosing `k` positions below `n`, rising strictly, is among
/// the choices.
pub proof fn every_rising_choice_is_made(s: Seq<usize>, start: nat, n: nat)
    requires
        rising_below(s, start, n),
    ensures
        choices(start, n, s.len()).contains(s),
    decreases n - start,
{
    if s.len() == 0 {
        assert(choices(start, n, 0)[0] =~= s);
    } else {
        assert(start <= s[0] < n);
        let rest = s.skip(1);
        if s[0] == start {
            assert forall|i: int| 0 <= i < rest.len() implies start + 1 <= #[trigger] rest[i] < n by {
                assert(rest[i] == s[i + 1]);
                assert(s[0] < s[i + 1]);
            }
            assert forall|i: int, j: int| 0 <= i < j < rest.len() implies rest[i] < rest[j] by {
                assert(rest[i] == s[i + 1] && rest[j] == s[j + 1]);
            }
            every_rising_choice_is_made(rest, start + 1, n);
            let inner = choices(start + 1, n, rest.len());
            let t = choose|t: int| 0 <= t < inner.len() && inner[t] == rest;
            let taken = led_by(seq![start as usize], inner);
            assert(taken[t] =~= s);
            assert((taken + choices(start + 1, n, s.len()))[t] == s);
        } else {
            assert forall|i: int| 0 <= i < s.len() implies start + 1 <= #[trigger] s[i] < n by {
                if i > 0 {
                    assert(s[0] < s[i]);
                }
            }
            every_rising_choice_is_made(s, start + 1, n);
            let later = choices(start + 1, n, s.len());
            let t = choose|t: int| 0 <= t < later.len() && later[t] == s;
            let taken = led_by(seq![start as usize], choices(start + 1, n, (s.len() - 1) as nat));
            assert((taken + later)[taken.len() + t] == s);
        }
    }
}

/// Adds every choice of `k` positions from `start` up to `n`, each after
/// `chosen`, to `produced`.
fn fill_choices(start: usize, n: usize, k: usize, chosen: &mut Vec<usize>, produced: &mut Vec<Vec<usize>>)
    requires
        start <= n,
    ensures
        final(chosen)@ == old(chosen)@,
        rows(final(produced)@) == rows(old(produced)@) + led_by(old(chosen)@, choices(start as nat, n as nat, k as nat)),
    decreases n - start,
{
    let ghost start_rows = rows(produced@);
    let ghost start_chosen = chosen@;
    if k == 0 {
        let row = copy_indices(chosen);
        produced.push(row);
        proof {
            assert(led_by(start_chosen, choices(start as nat, n as nat, 0)) =~= seq![start_chosen]);
            assert(rows(produced@) =~= start_rows + led_by(start_chosen, choices(start as nat, n as nat, 0)));
        }
        return;
    }
    if k > n - start {
        proof {
            assert(led_by(start_chosen, choices(start as nat, n as nat, k as nat)) =~= Seq::<Seq<usize>>::empty());
            assert(rows(produced@) =~= start_rows + led_by(start_chosen, choices(start as nat, n as nat, k as nat)));
        }
        return;
    }
    chosen.push(start);
    fill_choices(start + 1, n, k - 1, chosen, produced);
    let _ = chosen.pop();
    proof { assert(chosen@ =~= start_chosen); }
    let ghost mid_rows = rows(produced@);
    fill_choices(start + 1, n, k, chosen, produced);
    proof {
        let taken = choices((start + 1) as nat, n as nat, (k - 1) as nat);
        let left = choices((start + 1) as nat, n as nat, k as nat);
        assert(choices(start as nat, n as nat, k as nat) == led_by(seq![start], taken) + left);
        lemma_led_by_led_by(start_chosen, start, taken);
        lemma_led_by_concat(start_chosen, led_by(seq![start], taken), left);
    }
}

/// How many ways there are to choose `k` of `n`, when that is at most the
/// largest count built; `None` when it is more. Works with the smaller of
/// `k` and `n - k`, and stops as soon as the count passes the limit.
fn combination_count(n: usize, k: usize) -> (r: Option<u128>)
    requires
        k <= n,
    ensures
        match r {
            Some(c) => c == binomial(n as nat, k as nat) && c <= LARGEST_PRODUCED_COUNT,
            None => binomial(n as nat, k as nat) > LARGEST_PRODUCED_COUNT,
        },
{
    let small = if k <= n - k { k } else { n - k };
    proof { lemma_binomial_symmetric(n as nat, k as nat); }
    let mut count: u128 = 1;
    let mut step: usize = 0;
    while step < small
        invariant
            small <= n,
            2 * small <= n,
            step <= small,
            count == binomial(n as nat, step as nat),
            count <= LARGEST_PRODUCED_COUNT,
            binomial(n as nat, small as nat) == binomial(n as nat, k as nat),
        decreases small - step,
    {
        let diff: u128 = (n - step) as u128;
        proof {
            lemma_binomial_step(n as nat, step as nat);
            assert(diff <= 18446744073709551616u128);
            assert(count * diff <= LARGEST_PRODUCED_COUNT * 18446744073709551616u128) by (nonlinear_arith)
                requires count <= LARGEST_PRODUCED_COUNT, diff <= 18446744073709551616u128;
        }
        let product = count * diff;
        proof {
            assert(product == (step + 1) * binomial(n as nat, (step + 1) as nat)) by (nonlinear_arith)
                requires product == count * (n - step), count == binomial(n as nat, step as nat),
                    (step + 1) * binomial(n as nat, (step + 1) as nat) == (n - step) * binomial(n as nat, step as nat);
            assert(product / ((step + 1) as u128) == binomial(n as nat, (step + 1) as nat)) by (nonlinear_arith)
                requires product == (step + 1) * binomial(n as nat, (step + 1) as nat), step + 1 > 0;
        }
        count = product / ((step + 1) as u128);
        step = step + 1;
        if count > LARGEST_PRODUCED_COUNT as u128 {
            proof { lemma_binomial_grows(n as nat, step as nat, small as nat); }
            return None;
        }
    }
    Some(count)
}

/// Every way of choosing `size` elements, order not counting, as clones, in
/// the order their positions read. A negative size is an error; more than
/// the array holds gives no choices; more than a million choices are
/// refused rather than built.
pub fn combinations<T: Clone>(arr: &Vec<T>, size: i64) -> (r: Result<Vec<Vec<T>>, String>)
    ensures
        size < 0 ==> (r matches Err(e) && e@ == "array_combinations: cannot choose "@ + int_text(size as int)
            + " elements"@),
        size >= 0 && size as usize > arr@.len() ==> (r matches Ok(v) && v@.len() == 0),
        size >= 0 && size as usize <= arr@.len() && binomial(arr@.len(), size as usize as nat) > LARGEST_PRODUCED_COUNT
            ==> (r matches Err(e) && e@ == "array_combinations: choosing "@ + int_text(size as usize as int) + " of "@
            + int_text(arr@.len() as int) + " elements is "@ + int_text(usize::MAX as int) + " arrays, more than the "@
            + int_text(LARGEST_PRODUCED_COUNT as int) + " this will build"@),
        size >= 0 && size as usize <= arr@.len() && binomial(arr@.len(), size as usize as nat) <= LARGEST_PRODUCED_COUNT
            ==> (r matches Ok(v) && v@.len() == choices(0, arr@.len(), size as usize as nat).len()
            && v@.len() == binomial(arr@.len(), size as usize as nat)
            && forall|t: int| 0 <= t < v@.len() ==> (#[trigger] v@[t])@.len() == size as usize
                && forall|j: int| 0 <= j < size as usize ==>
                    cloned(arr@[choices(0, arr@.len(), size as usize as nat)[t][j] as int], #[trigger] v@[t]@[j])),
{
    if size < 0 {
        let mut m = String::from_str("array_combinations: cannot choose ");
        m.append(int_to_text(size).as_str());
        m.append(" elements");
        return Err(m);
    }
    let choose = size as usize;
    let n = arr.len();
    if choose > n {
        return Ok(Vec::new());
    }
    if combination_count(n, choose).is_none() {
        let mut m = String::from_str("array_combinations: choosing ");
        m.append(usize_to_text(choose).as_str());
        m.append(" of ");
        m.append(usize_to_text(n).as_str());
        m.append(" elements is ");
        m.append(usize_to_text(usize::MAX).as_str());
        m.append(" arrays, more than the ");
        m.append(usize_to_text(LARGEST_PRODUCED_COUNT).as_str());
        m.append(" this will build");
        return Err(m);
    }
    let ghost all = choices(0, n as nat, choose as nat);
    let mut chosen: Vec<usize> = Vec::new();
    let mut produced: Vec<Vec<usize>> = Vec::new();
    proof { assert(rows(produced@) =~= Seq::<Seq<usize>>::empty()); }
    fill_choices(0, n, choose, &mut chosen, &mut produced);
    proof {
        assert(led_by(Seq::<usize>::empty(), all) =~= all);
        assert(rows(produced@) =~= all);
        lemma_choices_shape(0, n as nat, choose as nat);
    }
    let mut out: Vec<Vec<T>> = Vec::new();
    let mut t: usize = 0;
    while t < produced.len()
        invariant
            n == arr@.len(),
            rows(produced@) == all,
            all == choices(0, n as nat, choose as nat),
            forall|u: int| 0 <= u < all.len() ==> (#[trigger] all[u]).len() == choose && rising_below(all[u], 0, n as nat),
            t <= produced@.len(),
            out@.len() == t,
            forall|u: int| 0 <= u < t ==> (#[trigger] out@[u])@.len() == choose
                && forall|j: int| 0 <= j < choose ==> cloned(arr@[all[u][j] as int], #[trigger] out@[u]@[j]),
        decreases produced@.len() - t,
    {
        proof {
            assert(produced@[t as int]@ == rows(produced@)[t as int]);
            assert(all_below(produced@[t as int]@, n as nat));
        }
        let row = picked(arr, &produced[t]);
        out.push(row);
        t = t + 1;
    }
    proof { assert(produced@.len() == rows(produced@).len()); }
    Ok(out)
}


/// Whether elements are ordered totally: Verus reads the type's order, every
/// two of them compare, `a < b` exactly when `b > a`, and `<` is a strict
/// weak order on them. Sorting by a comparison that is not a total order may
/// stop the program, as std documents for `sort_by`.
pub open spec fn ordered_totally<T: PartialOrd>(s: Seq<T>) -> bool {
    &&& order_known::<T>()
    &&& forall|i: int, j: int| #![trigger s[i], s[j]] 0 <= i < s.len() && 0 <= j < s.len() ==> s[i].partial_cmp_spec(
        &s[j],
    ) is Some
    &&& forall|i: int, j: int| 0 <= i < s.len() && 0 <= j < s.len() ==> #[trigger] below(s[i], s[j]) == above(s[j], s[i])
    &&& orders_weakly(s)
}

/// The order `sort_descending` sorts by: the second element's order against
/// the first, incomparable elements counting as level.
pub fn larger_first<T: PartialOrd>(a: &T, b: &T) -> (r: Ordering)
    ensures
        order_known::<T>() ==> r == (match b.partial_cmp_spec(a) {
            Some(o) => o,
            None => Ordering::Equal,
        }),
{
    match b.partial_cmp(a) {
        Some(o) => o,
        None => Ordering::Equal,
    }
}

/// Sorts with std's `slice::sort_by`, comparing by `larger_first`.
///
/// std documents `sort_by` as a stable sort that leaves the slice ordered by
/// the comparison: no element compares as greater than one after it. It may
/// stop the program when the comparison is not a total order, which
/// `ordered_totally` rules out. The elements are the same ones, rearranged.
/// That equal elements keep their order is left unstated.
#[verifier::external_body]
fn sort_larger_first<T: PartialOrd>(arr: &mut Vec<T>)
    requires
        ordered_totally(old(arr)@),
    ensures
        final(arr)@.to_multiset() == old(arr)@.to_multiset(),
        forall|i: int, j: int| 0 <= i < j < final(arr)@.len() ==> !above(#[trigger] final(arr)@[j], #[trigger] final(arr)@[i]),
{
    arr.sort_by(|a, b| larger_first(a, b));
}

/// The array sorted from largest to smallest: the same elements, none of
/// them larger than one before it.
pub fn sort_descending<T: Clone + PartialOrd>(arr: Vec<T>) -> (r: Vec<T>)
    requires
        ordered_totally(arr@),
    ensures
        r@.to_multiset() == arr@.to_multiset(),
        forall|i: int, j: int| 0 <= i < j < r@.len() ==> !above(#[trigger] r@[j], #[trigger] r@[i]),
{
    let mut out = arr;
    sort_larger_first(&mut out);
    out
}

/// The key at a position.
pub open spec fn key_at<K>(keys: Seq<K>, p: usize) -> K {
    keys[p as int]
}

/// The keys at the given positions, in their order.
pub open spec fn keyed<K>(keys: Seq<K>, order: Seq<usize>) -> Seq<K> {
    Seq::new(order.len(), |t: int| key_at(keys, order[t]))
}

/// Whether the positions are in order of their keys: no key larger than a
/// later one, or, with `larger_first`, smaller.
pub open spec fn in_key_order<K: PartialOrd>(keys: Seq<K>, order: Seq<usize>, larger_first: bool) -> bool {
    forall|i: int, j: int| 0 <= i < j < order.len() ==> !(if larger_first {
        above(key_at(keys, #[trigger] order[j]), key_at(keys, #[trigger] order[i]))
    } else {
        above(key_at(keys, order[i]), key_at(keys, order[j]))
    })
}

/// How two positions compare by their keys, larger keys first or last.
pub fn key_order<K: PartialOrd>(keys: &Vec<K>, a: usize, b: usize, larger_first: bool) -> (r: Ordering)
    requires
        a < keys@.len(),
        b < keys@.len(),
    ensures
        order_known::<K>() ==> r == (match (if larger_first {
            key_at(keys@, b).partial_cmp_spec(&key_at(keys@, a))
        } else {
            key_at(keys@, a).partial_cmp_spec(&key_at(keys@, b))
        }) {
            Some(o) => o,
            None => Ordering::Equal,
        }),
{
    let found = if larger_first { keys[b].partial_cmp(&keys[a]) } else { keys[a].partial_cmp(&keys[b]) };
    match found {
        Some(o) => o,
        None => Ordering::Equal,
    }
}

/// Sorts positions with std's `slice::sort_by`, comparing the keys at them
/// by `key_order`.
///
/// std documents `sort_by` as a stable sort that leaves the slice ordered by
/// the comparison; it may stop the program when the comparison is not a total
/// order, which `ordered_totally` on the keys compared rules out. The
/// positions are the same ones, rearranged. That positions with level keys
/// keep their order is left unstated.
#[verifier::external_body]
fn sort_positions<K: PartialOrd>(order: &mut Vec<usize>, keys: &Vec<K>, larger_first: bool)
    requires
        all_below(old(order)@, keys@.len()),
        ordered_totally(keyed(keys@, old(order)@)),
    ensures
        final(order)@.to_multiset() == old(order)@.to_multiset(),
        in_key_order(keys@, final(order)@, larger_first),
{
    order.sort_by(|a, b| key_order(keys, *a, *b, larger_first));
}

/// The smaller of two lengths.
pub open spec fn shorter(a: nat, b: nat) -> nat {
    if a < b { a } else { b }
}

/// The first `n` keys.
pub open spec fn first_keys<K>(keys: Seq<K>, n: nat) -> Seq<K> {
    keys.take(n as int)
}

/// The positions `0` to `n - 1`, as an array.
fn first_positions(n: usize) -> (r: Vec<usize>)
    ensures
        r@ == positions(n as nat),
{
    let mut order: Vec<usize> = Vec::new();
    let mut i: usize = 0;
    while i < n
        invariant
            i <= n,
            order@ == positions(i as nat),
        decreases n - i,
    {
        order.push(i);
        proof { assert(order@ =~= positions((i + 1) as nat)); }
        i = i + 1;
    }
    order
}

/// Whether `r` holds clones of the elements at the positions, in their order.
pub open spec fn picked_at<T: Clone>(arr: Seq<T>, order: Seq<usize>, r: Seq<T>) -> bool {
    &&& r.len() == order.len()
    &&& forall|t: int| 0 <= t < order.len() ==> cloned(key_at(arr, order[t]), #[trigger] r[t])
}

/// The elements ordered by the keys given for them, as clones: as many as
/// there are both elements and keys, in an order of their positions that
/// puts their keys in order.
fn sorted_by_keys<T: Clone, K: PartialOrd>(arr: &Vec<T>, keys: &Vec<K>, larger_first: bool) -> (r: Vec<T>)
    requires
        ordered_totally(first_keys(keys@, shorter(arr@.len(), keys@.len()))),
    ensures
        exists|order: Seq<usize>| {
            &&& order.to_multiset() == positions(shorter(arr@.len(), keys@.len())).to_multiset()
            &&& in_key_order(keys@, order, larger_first)
            &&& picked_at(arr@, order, r@)
        },
{
    let m = if arr.len() < keys.len() { arr.len() } else { keys.len() };
    let mut order = first_positions(m);
    proof {
        assert(keyed(keys@, order@) =~= first_keys(keys@, shorter(arr@.len(), keys@.len())));
        assert(all_below(order@, keys@.len()));
    }
    let ghost start = order@;
    sort_positions(&mut order, keys, larger_first);
    let mut out: Vec<T> = Vec::new();
    let mut t: usize = 0;
    while t < order.len()
        invariant
            order@.to_multiset() == start.to_multiset(),
            start == positions(shorter(arr@.len(), keys@.len())),
            m == shorter(arr@.len(), keys@.len()),
            m <= arr@.len(),
            t <= order@.len(),
            out@.len() == t,
            forall|u: int| 0 <= u < t ==> cloned(key_at(arr@, order@[u]), #[trigger] out@[u]),
        decreases order@.len() - t,
    {
        let p = order[t];
        proof {
            broadcast use vstd::seq_lib::to_multiset_contains;
            assert(order@.contains(p));
            assert(order@.to_multiset().count(p) > 0);
            assert(start.contains(p));
        }
        out.push(arr[p].clone());
        t = t + 1;
    }
    proof {
        vstd::seq_lib::to_multiset_len(order@);
        vstd::seq_lib::to_multiset_len(start);
        assert(order@.len() == start.len());
        assert(picked_at(arr@, order@, out@));
    }
    out
}

/// The elements ordered by the keys given for them, smallest key first; as
/// many as there are both elements and keys.
pub fn sort_by_keys<T: Clone, K: PartialOrd>(arr: Vec<T>, keys: Vec<K>) -> (r: Vec<T>)
    requires
        ordered_totally(first_keys(keys@, shorter(arr@.len(), keys@.len()))),
    ensures
        exists|order: Seq<usize>| {
            &&& order.to_multiset() == positions(shorter(arr@.len(), keys@.len())).to_multiset()
            &&& in_key_order(keys@, order, false)
            &&& picked_at(arr@, order, r@)
        },
{
    sorted_by_keys(&arr, &keys, false)
}

/// The elements ordered by the keys given for them, largest key first; as
/// many as there are both elements and keys.
pub fn sort_by_keys_descending<T: Clone, K: PartialOrd>(arr: Vec<T>, keys: Vec<K>) -> (r: Vec<T>)
    requires
        ordered_totally(first_keys(keys@, shorter(arr@.len(), keys@.len()))),
    ensures
        exists|order: Seq<usize>| {
            &&& order.to_multiset() == positions(shorter(arr@.len(), keys@.len())).to_multiset()
            &&& in_key_order(keys@, order, true)
            &&& picked_at(arr@, order, r@)
        },
{
    sorted_by_keys(&arr, &keys, true)
}

} // verus!
