//! Sums that are accumulated from left to right.
use vstd::prelude::*;

use crate::backend::{deterministic, Backend};

verus! {

/// The first `n` entries of `s`, added up from left to right.
pub open spec fn sum_upto<B: Backend>(s: Seq<B::Num>, n: int) -> B::Num
    decreases n,
{
    if n <= 0 {
        B::whole_of(0)
    } else {
        B::plus_of(sum_upto::<B>(s, n - 1), s[n - 1])
    }
}

/// The products of the first `n` entries of `x` and `y`, added up from left to right.
pub open spec fn dot_upto<B: Backend>(x: Seq<B::Num>, y: Seq<B::Num>, n: int) -> B::Num
    decreases n,
{
    if n <= 0 {
        B::whole_of(0)
    } else {
        B::plus_of(dot_upto::<B>(x, y, n - 1), B::times_of(x[n - 1], y[n - 1]))
    }
}

/// The sum of all entries of `s`.
pub fn sum<B: Backend>(s: &Vec<B::Num>) -> (r: B::Num)
    ensures
        deterministic::<B>() ==> r == sum_upto::<B>(s@, s@.len() as int),
{
    let mut acc = B::whole(0);
    for i in 0..s.len()
        invariant
            deterministic::<B>() ==> acc == sum_upto::<B>(s@, i as int),
    {
        acc = B::plus(acc, s[i]);
    }
    acc
}

/// The inner product of two vectors of equal length.
pub fn dot<B: Backend>(x: &Vec<B::Num>, y: &Vec<B::Num>) -> (r: B::Num)
    requires
        x@.len() == y@.len(),
    ensures
        deterministic::<B>() ==> r == dot_upto::<B>(x@, y@, x@.len() as int),
{
    let mut acc = B::whole(0);
    for i in 0..x.len()
        invariant
            x@.len() == y@.len(),
            deterministic::<B>() ==> acc == dot_upto::<B>(x@, y@, i as int),
    {
        acc = B::plus(acc, B::times(x[i], y[i]));
    }
    acc
}

} // verus!
