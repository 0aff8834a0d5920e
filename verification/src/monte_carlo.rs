//! Sampling with replacement, for Monte Carlo estimates.

use vstd::prelude::*;
use rand::Rng;

verus! {

/// Elements from which one can be drawn at random, each as often as it was added.
#[derive(Clone, Debug)]
pub struct SampleWithReplacement<E> {
    pub elements: Vec<E>,
}

/// A number from 0 up to, but not including, `n`, drawn by the generator.
///
/// Calls `rand::Rng::random_range` on `0..n`, which panics on an empty range (hence the
/// `requires`) and otherwise gives a number in the range. Which one depends on the generator's
/// state, so nothing more is stated.
#[verifier::external_body]
pub(crate) fn random_index(rng: &mut rand_chacha::ChaCha20Rng, n: usize) -> (res: usize)
    requires
        n > 0,
    ensures
        res < n,
{
    rng.random_range(0..n)
}

impl<E: Copy> SampleWithReplacement<E> {
    /// Nothing to choose from yet.
    pub fn default() -> (res: Self)
        ensures
            res.elements@.len() == 0,
    {
        SampleWithReplacement { elements: Vec::new() }
    }

    /// Add an element that could be chosen.
    pub fn add(&mut self, e: E)
        ensures
            final(self).elements@ == old(self).elements@.push(e),
    {
        self.elements.push(e);
    }

    /// Add an element `n` times.
    pub fn add_multiple(&mut self, e: E, n: usize)
        ensures
            final(self).elements@ == old(self).elements@ + Seq::new(n as nat, |_i: int| e),
    {
        let ghost start = self.elements@;
        for i in 0..n
            invariant
                self.elements@ == start + Seq::new(i as nat, |_i: int| e),
        {
            self.add(e);
            assert(self.elements@ =~= start + Seq::new((i + 1) as nat, |_i: int| e));
        }
    }

    /// Get a random element. There must be at least one.
    pub fn get(&self, rng: &mut rand_chacha::ChaCha20Rng) -> (res: E)
        requires
            self.elements@.len() > 0,
        ensures
            self.elements@.contains(res),
    {
        let i = random_index(rng, self.elements.len());
        assert(self.elements@[i as int] == self.elements[i as int]);
        self.elements[i]
    }
}

} // verus!
