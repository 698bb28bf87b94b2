//! Sums and means in the order in which values come.

use crate::binary64::Binary64;
use vstd::prelude::*;

verus! {

/// The sum of values, taken in order from zero.
pub open spec fn sum(values: Seq<Binary64>) -> Binary64
    decreases values.len(),
{
    if values.len() == 0 {
        Binary64::of_int(0)
    } else {
        sum(values.drop_last()).total(values.last())
    }
}

pub open spec fn mean(values: Seq<Binary64>) -> Binary64 {
    sum(values).quotient(Binary64::of_int(values.len() as int))
}

/// The sum of the values from `start` on.
pub fn total(values: &[Binary64], start: usize) -> (r: Binary64)
    requires
        start <= values@.len(),
    ensures
        r == sum(values@.skip(start as int)),
{
    let mut total: Binary64 = Binary64::from_u64(0);
    let mut i: usize = start;
    let ghost all = values@.skip(start as int);
    assert(all.take(0) =~= Seq::<Binary64>::empty());
    while i < values.len()
        invariant
            start <= i <= values@.len(),
            all == values@.skip(start as int),
            total == sum(all.take(i - start)),
        decreases values@.len() - i,
    {
        total = total.plus(values[i]);
        proof {
            assert(all.take(i + 1 - start).drop_last() =~= all.take(i - start));
        }
        i = i + 1;
    }
    assert(all.take(all.len() as int) =~= all);
    total
}

/// The mean of the values from `start` on.
pub fn average(values: &[Binary64], start: usize) -> (r: Binary64)
    requires
        start <= values@.len(),
    ensures
        r == mean(values@.skip(start as int)),
{
    total(values, start).over(Binary64::from_u64((values.len() - start) as u64))
}

} // verus!
