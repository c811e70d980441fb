//! The random draws that sampling needs, made by the `rand` crate.

use crate::model::row_total;
use rand::distributions::{Distribution, WeightedError, WeightedIndex};
use rand::rngs::StdRng;
use rand::seq::SliceRandom;
use vstd::prelude::*;

verus! {

/// The generator that the draws are taken from.
#[verifier::external_type_specification]
#[verifier::external_body]
pub struct ExStdRng(rand::rngs::StdRng);

/// Why `rand` could not set up a weighted choice.
#[verifier::external_type_specification]
#[verifier::external_body]
pub struct ExWeightedError(rand::distributions::WeightedError);

/// `SliceRandom::choose` on the slice of `letters`: one of them, each with
/// the same chance, or `None` where there is none.
#[verifier::external_body]
pub(crate) fn choose_letter(rng: &mut StdRng, letters: &Vec<char>) -> (r: Option<char>)
    ensures
        r is None <==> letters.len() == 0,
        r matches Some(c) ==> letters@.contains(c),
{
    letters.choose(rng).copied()
}

/// `WeightedIndex::new` over the counts of `nexts`, then one `sample` of
/// it: the index of an entry, drawn with a chance proportional to its
/// count. `rand` adds the counts up in a `u64`, so together they have to
/// fit in one. It refuses an empty row and one whose counts are all zero,
/// and nothing else; an entry with count zero is never drawn.
#[verifier::external_body]
pub(crate) fn draw_index(rng: &mut StdRng, nexts: &Vec<(char, u64)>) -> (r: Result<usize, WeightedError>)
    requires
        row_total(nexts@) <= u64::MAX,
    ensures
        r is Ok <==> (nexts.len() > 0 && row_total(nexts@) > 0),
        r matches Ok(i) ==> (i < nexts.len() && nexts[i as int].1 > 0),
{
    let weights = WeightedIndex::new(nexts.iter().map(|entry| entry.1))?;
    Ok(weights.sample(rng))
}

} // verus!
