//! The random draws of the game, made from a generator that the caller
//! supplies.
//!
//! Nothing is proved of the `rand` crate. Each function here makes one call
//! into it and states, on trust, what holds of every draw; the rest of the
//! crate is verified for every value that a draw can give.

use rand::rngs::StdRng;
use rand::seq::{IteratorRandom, SliceRandom};
use rand::Rng;
use vstd::prelude::*;
use crate::actions::Actions;

verus! {

/// The seedable generator `rand::rngs::StdRng`. Its state is opaque here: it
/// is only handed on to the draws below.
#[verifier::external_type_specification]
#[verifier::external_body]
pub struct ExStdRng(rand::rngs::StdRng);

/// Calls `rand::seq::SliceRandom::choose` on the cells. Taken on trust: the
/// result is `None` for an empty list and otherwise one of its entries.
#[verifier::external_body]
pub(crate) fn choose_cell(cells: &Vec<(usize, usize)>, rng: &mut StdRng) -> (picked: Option<
    (usize, usize),
>)
    ensures
        picked is None <==> cells@.len() == 0,
        picked matches Some(cell) ==> cells@.contains(cell),
{
    cells.choose(rng).copied()
}

/// Calls `rand::seq::IteratorRandom::choose` on the directions. Taken on
/// trust: the result is `None` for an empty list and otherwise one of its
/// entries.
#[verifier::external_body]
pub(crate) fn choose_action(actions: Vec<Actions>, rng: &mut StdRng) -> (picked: Option<Actions>)
    ensures
        picked is None <==> actions@.len() == 0,
        picked matches Some(action) ==> actions@.contains(action),
{
    actions.into_iter().choose(rng)
}

/// Calls `rand::Rng::gen_range` on `0..bound`. Taken on trust: the result is
/// below the bound. The call panics on an empty range, which the
/// precondition rules out.
#[verifier::external_body]
pub(crate) fn below(rng: &mut StdRng, bound: usize) -> (n: usize)
    requires
        bound > 0,
    ensures
        n < bound,
{
    rng.gen_range(0..bound)
}

} // verus!
