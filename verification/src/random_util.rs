//! Where randomness is needed in a count: drawing lots to break ties.

use vstd::prelude::*;
use crate::ballot_metadata::CandidateIndex;
use crate::util::{sort_by_index, sorted_by_index};
use crate::monte_carlo::random_index;
use rand::seq::SliceRandom;
use rand::SeedableRng;

verus! {

/// The ChaCha20 pseudo random number generator.
#[verifier::external_type_specification]
#[verifier::external_body]
pub struct ExChaCha20Rng(rand_chacha::ChaCha20Rng);

/// How randomness is generated, where a count needs it (for instance, to resolve ties).
pub enum Randomness {
    /// Resolve ties by favouring candidates who are lower down on the ballot. This seems to have
    /// been done by the AEC some years, but may have been coincidence.
    ReverseDonkeyVote,
    /// Use a pseudo random number generator.
    PRNG(rand_chacha::ChaCha20Rng),
}

/// Randomly permutes the list.
///
/// Calls `rand::seq::SliceRandom::shuffle`, which (by its source, a Fisher-Yates shuffle made of
/// swaps) leaves the same elements in some order. Which order depends on the generator's state,
/// so the contract says only that the elements are kept.
#[verifier::external_body]
fn shuffle_candidates(v: &mut Vec<CandidateIndex>, prng: &mut rand_chacha::ChaCha20Rng)
    ensures
        final(v)@.to_multiset() == old(v)@.to_multiset(),
        final(v)@.len() == old(v)@.len(),
{
    v.as_mut_slice().shuffle(prng);
}

/// A generator seeded from a number.
///
/// Calls `rand::SeedableRng::seed_from_u64` for `ChaCha20Rng`. Nothing is stated of the generator made.
#[verifier::external_body]
fn seeded_generator(seed: u64) -> (res: rand_chacha::ChaCha20Rng) {
    rand_chacha::ChaCha20Rng::seed_from_u64(seed)
}

/// How many of the values are `v`.
pub open spec fn count_of(s: Seq<bool>, v: bool) -> nat
    decreases s.len(),
{
    if s.len() == 0 {
        0
    } else {
        count_of(s.drop_last(), v) + if s.last() == v {
            1nat
        } else {
            0nat
        }
    }
}

/// Each value is one or the other.
proof fn lemma_count_both(s: Seq<bool>)
    ensures
        count_of(s, true) + count_of(s, false) == s.len(),
    decreases s.len(),
{
    if s.len() > 0 {
        lemma_count_both(s.drop_last());
    }
}

/// Flipping a value `v` at position `j` makes one fewer `v`.
proof fn lemma_count_flip(s: Seq<bool>, j: int, v: bool)
    requires
        0 <= j < s.len(),
        s[j] == v,
    ensures
        count_of(s.update(j, !v), v) + 1 == count_of(s, v),
    decreases s.len(),
{
    let t = s.update(j, !v);
    if j < s.len() - 1 {
        assert(t.drop_last() =~= s.drop_last().update(j, !v));
        lemma_count_flip(s.drop_last(), j, v);
    } else {
        assert(t.drop_last() =~= s.drop_last());
    }
}

/// The number of `v` among the first `j` values.
proof fn lemma_count_prefix(s: Seq<bool>, j: int, v: bool)
    requires
        0 <= j < s.len(),
    ensures
        count_of(s.take(j + 1), v) == count_of(s.take(j), v) + if s[j] == v {
            1nat
        } else {
            0nat
        },
{
    assert(s.take(j + 1).drop_last() =~= s.take(j));
}

/// A list of `len` copies of `v`.
proof fn lemma_count_all(s: Seq<bool>, v: bool)
    requires
        forall|i: int| 0 <= i < s.len() ==> s[i] == v,
    ensures
        count_of(s, v) == s.len(),
    decreases s.len(),
{
    if s.len() > 0 {
        lemma_count_all(s.drop_last(), v);
    }
}

impl Randomness {
    /// If all else fails, resolve draws randomly. The candidates are first put in ballot order,
    /// so that a generator with a given seed gives the same results whatever order the candidates
    /// came in; a reverse donkey vote leaves them in that order.
    pub fn resolve(&mut self, tied_candidates: &mut Vec<CandidateIndex>)
        ensures
            final(tied_candidates)@.to_multiset() == old(tied_candidates)@.to_multiset(),
            final(tied_candidates)@.len() == old(tied_candidates)@.len(),
            (*old(self) is ReverseDonkeyVote) ==> sorted_by_index(final(tied_candidates)@),
            (*old(self) is ReverseDonkeyVote) == (*final(self) is ReverseDonkeyVote),
    {
        sort_by_index(tied_candidates);
        match self {
            Randomness::ReverseDonkeyVote => {},
            Randomness::PRNG(prng) => {
                shuffle_candidates(tied_candidates, prng);
            },
        }
    }

    /// A list of `len` values, `num_true` of them true. A reverse donkey vote makes the first
    /// `num_true` true; a generator chooses which at random, by picking out the rarer value one
    /// place at a time, each from among the places not yet picked.
    #[verifier::loop_isolation(false)]
    pub fn make_array_with_some_randomly_true(&mut self, len: usize, num_true: usize) -> (res: Vec<bool>)
        requires
            num_true <= len,
        ensures
            res@.len() == len,
            count_of(res@, true) == num_true,
            *old(self) is ReverseDonkeyVote ==> forall|i: int| 0 <= i < len ==> #[trigger] res@[i] == (i < num_true),
            (*old(self) is ReverseDonkeyVote) == (*final(self) is ReverseDonkeyVote),
    {
        match self {
            Randomness::ReverseDonkeyVote => {
                let mut res: Vec<bool> = Vec::new();
                for i in 0..len
                    invariant
                        res@.len() == i,
                        forall|k: int| 0 <= k < i ==> #[trigger] res@[k] == (k < num_true),
                        count_of(res@, true) == if i < num_true {
                            i as nat
                        } else {
                            num_true as nat
                        },
                {
                    let ghost prev = res@;
                    res.push(i < num_true);
                    assert(res@.drop_last() =~= prev);
                }
                res
            },
            Randomness::PRNG(prng) => {
                let inverse = num_true > len / 2;
                let mut res: Vec<bool> = Vec::new();
                for i in 0..len
                    invariant
                        res@.len() == i,
                        forall|k: int| 0 <= k < i ==> #[trigger] res@[k] == inverse,
                {
                    res.push(inverse);
                }
                proof {
                    lemma_count_all(res@, inverse);
                }
                let mut togo = if inverse {
                    len - num_true
                } else {
                    num_true
                };
                let stay = len - togo;
                while togo > 0
                    invariant
                        res@.len() == len,
                        togo + stay <= len,
                        stay == if inverse {
                            num_true
                        } else {
                            (len - num_true) as usize
                        },
                        count_of(res@, inverse) == togo + stay,
                    decreases togo,
                {
                    let k = random_index(prng, togo + stay);
                    let ghost before = res@;
                    let mut seen: usize = 0;
                    let mut j: usize = 0;
                    while j < len
                        invariant
                            res@ == before,
                            j <= len,
                            seen == count_of(before.take(j as int), inverse),
                            seen <= k,
                        decreases len - j,
                    {
                        proof {
                            lemma_count_prefix(before, j as int, inverse);
                        }
                        if res[j] == inverse {
                            if seen == k {
                                break;
                            }
                            seen = seen + 1;
                        }
                        j = j + 1;
                    }
                    proof {
                        if j == len {
                            assert(before.take(len as int) =~= before);
                            assert(false);
                        }
                    }
                    res.set(j, !inverse);
                    proof {
                        lemma_count_flip(before, j as int, inverse);
                    }
                    togo = togo - 1;
                }
                proof {
                    lemma_count_both(res@);
                }
                res
            },
        }
    }

    /// No seed means a reverse donkey vote. A seed means a pseudo random number generator
    /// (which, as it always has, is seeded with 1 whatever seed is given).
    pub fn from_seed(value: Option<u64>) -> (res: Self)
        ensures
            (res is ReverseDonkeyVote) == (value is None),
    {
        match value {
            None => Randomness::ReverseDonkeyVote,
            Some(_) => Randomness::PRNG(seeded_generator(1)),
        }
    }
}

} // verus!
