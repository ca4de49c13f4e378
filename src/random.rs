//! Random draws, through `rand`: shuffling at setup, and the choices of
//! computer players.
use rand::rngs::StdRng;
use rand::seq::SliceRandom;
use rand::Rng;
use vstd::prelude::*;

use crate::board::Tile;

verus! {

/// `rand`'s standard generator, carried through game setup.
#[verifier::external_type_specification]
#[verifier::external_body]
pub struct ExStdRng(rand::rngs::StdRng);

/// Relies on `rand::seq::SliceRandom::shuffle`: it swaps elements in place,
/// so the result is a permutation of the input.
#[verifier::external_body]
pub(crate) fn shuffle_tiles(tiles: &mut Vec<Tile>, rng: &mut StdRng)
    ensures
        final(tiles)@.len() == old(tiles)@.len(),
        final(tiles)@.to_multiset() == old(tiles)@.to_multiset(),
{
    tiles.shuffle(rng);
}

/// Relies on `rand::Rng::gen_range` over `0..n`: a value below `n`; it
/// panics on an empty range, which `n > 0` rules out.
#[verifier::external_body]
pub(crate) fn random_below(rng: &mut StdRng, n: usize) -> (r: usize)
    requires
        n > 0,
    ensures
        r < n,
{
    rng.gen_range(0..n)
}

/// Relies on `rand::seq::SliceRandom::choose` with the thread's generator:
/// one of the items, or `None` when there are none.
#[verifier::external_body]
pub(crate) fn random_element(items: &Vec<usize>) -> (r: Option<usize>)
    ensures
        items@.len() == 0 <==> r is None,
        r matches Some(x) ==> items@.contains(x),
{
    items.choose(&mut rand::thread_rng()).copied()
}

/// Relies on `rand::Rng::gen_range` over `0..=n` with the thread's
/// generator: a value of at most `n`.
#[verifier::external_body]
pub(crate) fn random_up_to(n: usize) -> (r: usize)
    ensures
        r <= n,
{
    rand::thread_rng().gen_range(0..=n)
}

/// Relies on `rand::seq::SliceRandom::choose_multiple` with the thread's
/// generator: `amount` items (all, if there are fewer) taken from distinct
/// positions of `items`.
#[verifier::external_body]
pub(crate) fn random_sample(items: &Vec<usize>, amount: usize) -> (r: Vec<usize>)
    ensures
        r@.len() == if amount < items@.len() {
            amount as int
        } else {
            items@.len() as int
        },
        r@.to_multiset().subset_of(items@.to_multiset()),
{
    items.choose_multiple(&mut rand::thread_rng(), amount).copied().collect()
}

} // verus!
