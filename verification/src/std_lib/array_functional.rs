//! Ranges of whole numbers as arrays.

use vstd::prelude::*;

verus! {

/// The whole numbers from `start` up to `end`, `end` left out when
/// `inclusive` is false.
pub open spec fn range_of(start: i64, end: i64, inclusive: bool) -> Seq<i64> {
    let last = if inclusive { end as int } else { end - 1 };
    if last < start {
        Seq::empty()
    } else {
        Seq::new((last - start + 1) as nat, |k: int| (start + k) as i64)
    }
}

/// The numbers from `start` up to `last`, both included; none when `last`
/// is below `start`.
fn count_up(start: i64, last: i64) -> (r: Vec<i64>)
    ensures
        r@ == (if last < start { Seq::<i64>::empty() } else { Seq::new((last - start + 1) as nat, |k: int| (start + k) as i64) }),
{
    let mut out: Vec<i64> = Vec::new();
    if last < start {
        proof { assert(out@ =~= Seq::<i64>::empty()); }
        return out;
    }
    let mut next = start;
    loop
        invariant
            start <= next <= last,
            out@ =~= Seq::new((next - start) as nat, |k: int| (start + k) as i64),
        decreases last - next,
    {
        out.push(next);
        if next == last {
            proof { assert(out@ =~= Seq::new((last - start + 1) as nat, |k: int| (start + k) as i64)); }
            return out;
        }
        next = next + 1;
    }
}

/// The whole numbers from `start` to `end`, both included; empty when `end`
/// is below `start`.
pub fn range(start: i64, end: i64) -> (r: Vec<i64>)
    ensures
        r@ == range_of(start, end, true),
{
    count_up(start, end)
}

/// The whole numbers from `start` up to but not including `end`, as Python's
/// `range` counts.
pub fn range_exclusive(start: i64, end: i64) -> (r: Vec<i64>)
    ensures
        r@ == range_of(start, end, false),
{
    if end == i64::MIN {
        return Vec::new();
    }
    count_up(start, end - 1)
}

} // verus!
