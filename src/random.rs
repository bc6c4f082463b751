//! The random draws of a new game, made with the `rand` crate's thread-local
//! generator. Nothing is known of which values come out; each contract says
//! what holds of every outcome.

use crate::grid::Color;
use rand::seq::SliceRandom;
use vstd::prelude::*;

verus! {

/// Relies on `rand::seq::SliceRandom::choose_multiple` for slices: it samples
/// `min(amount, len)` distinct indices and yields the elements at them.
#[verifier::external_body]
pub(crate) fn choose_multiple(all: &Vec<Color>, amount: usize) -> (r: Vec<Color>)
    ensures
        r@.len() == if amount < all@.len() { amount as int } else { all@.len() as int },
        forall|i: int| 0 <= i < r@.len() ==> all@.contains(#[trigger] r@[i]),
        all@.no_duplicates() ==> r@.no_duplicates(),
{
    let mut rng = rand::thread_rng();
    all.as_slice().choose_multiple(&mut rng, amount).copied().collect()
}

/// Relies on `rand::seq::SliceRandom::choose` for slices: `None` for an empty
/// slice, otherwise one of its elements.
#[verifier::external_body]
pub(crate) fn choose_color(colors: &Vec<Color>) -> (r: Option<Color>)
    ensures
        r is Some <==> colors@.len() > 0,
        r matches Some(c) ==> colors@.contains(c),
{
    let mut rng = rand::thread_rng();
    colors.as_slice().choose(&mut rng).copied()
}

} // verus!
