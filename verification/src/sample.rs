//! Random choice, drawn from the `rand` crate's generator of the running
//! thread.

use vstd::prelude::*;
use rand::rngs::ThreadRng;
use rand::seq::SliceRandom;
use rand::Rng;

verus! {

/// `rand::rngs::ThreadRng`, the handle to the generator of the running
/// thread. It is carried from its maker to the draws; nothing is read of
/// it.
#[verifier::external_type_specification]
#[verifier::external_body]
pub struct ExThreadRng(ThreadRng);

/// `rand::thread_rng`: the generator of the running thread. Nothing is
/// claimed of it.
#[verifier::external_body]
pub(crate) fn thread_generator() -> ThreadRng {
    rand::thread_rng()
}

/// `SliceRandom::choose`: one of `candidates`, each as likely as another, or
/// nothing where there is none. Which one is not said: only that it is
/// among them.
#[verifier::external_body]
pub(crate) fn choose_among(candidates: &Vec<usize>, generator: &mut ThreadRng) -> (picked: Option<usize>)
    ensures
        candidates.len() == 0 ==> picked is None,
        candidates.len() > 0 ==> picked is Some && candidates@.contains(picked->0),
{
    candidates.choose(generator).cloned()
}

/// `Rng::gen_range` over `0..bound`: a number below `bound`, each as likely
/// as another. Which one is not said. The crate refuses an empty range.
#[verifier::external_body]
pub(crate) fn index_below(bound: usize, generator: &mut ThreadRng) -> (index: usize)
    requires
        bound > 0,
    ensures
        index < bound,
{
    generator.gen_range(0..bound)
}

/// One of `candidates` by the thread's generator, or nothing where there is
/// none.
pub fn pick_at_random(candidates: &Vec<usize>) -> (picked: Option<usize>)
    ensures
        candidates.len() == 0 ==> picked is None,
        candidates.len() > 0 ==> picked is Some && candidates@.contains(picked->0),
{
    let mut generator = thread_generator();
    choose_among(candidates, &mut generator)
}

} // verus!
