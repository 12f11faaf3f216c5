//! Random choices, made by the `rand` crate with the generator of the
//! current thread.
//!
//! The generator is seeded from the operating system the first time a thread
//! uses it. Nothing here is proved of the choices: the contracts say what
//! holds of every outcome.

use rand::seq::{IteratorRandom, SliceRandom};
use vstd::prelude::*;

use crate::coord::Coord;

verus! {

/// One number of the range from `low` up to, but without, `high`, picked
/// by [`IteratorRandom::choose`], which returns `None` exactly where the
/// iterator is empty and one of its items otherwise. Which number it is
/// remains open.
#[verifier::external_body]
pub(crate) fn choose_in_range(low: usize, high: usize) -> (r: Option<usize>)
    ensures
        r is None <==> low >= high,
        r matches Some(n) ==> low <= n < high,
{
    (low..high).choose(&mut rand::thread_rng())
}

/// Elements of `list` picked by [`SliceRandom::choose_multiple`], which
/// picks `amount` different positions of the slice, or all of them where the
/// slice is shorter, and hands out the elements there in an order of its own.
/// Which positions they are remains open.
#[verifier::external_body]
pub(crate) fn choose_coords(list: &Vec<Coord>, amount: usize) -> (picked: Vec<Coord>)
    ensures
        picked.len() == if amount <= list.len() {
            amount
        } else {
            list.len()
        },
        exists|positions: Seq<int>|
            positions.len() == picked.len() && positions.no_duplicates() && forall|i: int|
                0 <= i < picked.len() ==> 0 <= #[trigger] positions[i] < list.len() && picked[i]
                    == list[positions[i]],
{
    list.choose_multiple(&mut rand::thread_rng(), amount).copied().collect()
}

} // verus!
