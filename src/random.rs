use crate::table::{total_weight, Entry};
use rand::seq::SliceRandom;
use rand::Rng;
use vstd::prelude::*;

verus! {

/// Relies on rand's `Rng::gen_ratio` on the thread's generator: `true` with
/// probability `numerator / denominator`; from rand's source, never when the
/// numerator is zero and always when it equals the denominator.
#[verifier::external_body]
pub(crate) fn chance(numerator: u32, denominator: u32) -> (r: bool)
    requires
        0 < denominator,
        numerator <= denominator,
    ensures
        numerator == 0 ==> !r,
        numerator == denominator ==> r,
{
    rand::thread_rng().gen_ratio(numerator, denominator)
}

/// Relies on rand's `Rng::gen_range` on the thread's generator: a uniform
/// index below `len`.
#[verifier::external_body]
pub(crate) fn random_index(len: usize) -> (r: usize)
    requires
        len > 0,
    ensures
        r < len,
{
    rand::thread_rng().gen_range(0..len)
}

/// Relies on rand's `Rng::gen` for `usize` on the thread's generator: any
/// value at all.
#[verifier::external_body]
pub(crate) fn random_usize() -> (r: usize) {
    rand::thread_rng().gen::<usize>()
}

/// Relies on rand's `SliceRandom::choose_weighted` on the thread's generator,
/// weighing each entry by its `weight`: it picks an entry of positive weight,
/// and fails only on an empty list or one whose weights are all zero. Its
/// running sum of weights must not overflow.
#[verifier::external_body]
pub(crate) fn choose_entry(entries: &Vec<Entry>) -> (r: Option<Option<char>>)
    requires
        total_weight(entries@) <= u32::MAX,
    ensures
        r matches Some(c) ==> exists|i: int|
            0 <= i < entries@.len() && (#[trigger] entries@[i]).ch == c && entries@[i].weight > 0,
        (exists|i: int| 0 <= i < entries@.len() && (#[trigger] entries@[i]).weight > 0) ==> r is Some,
{
    entries.choose_weighted(&mut rand::thread_rng(), |e| e.weight).ok().map(|e| e.ch)
}

} // verus!
