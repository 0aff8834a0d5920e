//! Resolving ties between candidates: by looking back at earlier counts, by decisions the
//! electoral commission made, or by lot.

use vstd::prelude::*;
use crate::ballot_metadata::CandidateIndex;
use crate::distribution_of_preferences_transcript::CountIndex;
use crate::compare_transcripts::DeltasInCandidateLists;
use crate::random_util::Randomness;
use crate::util::{contains_candidate, keep_if_in, filter_by_membership, sorted_by_index};
use crate::ballot_metadata::NumberOfCandidates;
use crate::ballot_pile::BallotPaperCount;
use crate::tally::TallyValue;
use crate::distribution_of_preferences_transcript::Transcript;
use crate::countback::{ranges_within, 
    UnresolvedRange, ranges_view, tallies_cover, all_different_outcome, unique_minimum_outcome, any_different_resolution,
    resolve_ties_require_all_different, resolve_ties_any_different, resolve_ties_any_different_give_up_if_cant_do_everything,
    resolve_ties_require_unique_minimum_granularity,
};
use crate::nz_prng::{nz_outcome, resolve_using_NZPRN};

verus! {

/// The ways legislation asks ties to be resolved.
#[derive(Debug, Clone, Copy, PartialEq, Eq, Structural)]
pub enum MethodOfTieResolution {
    /// Nothing is resolved automatically.
    NoResolution,
    /// Require that at some prior point *all* the counts were different.
    /// (Commonwealth Electoral Act 1918, Section 273, 20(b).)
    RequireHistoricalCountsToBeAllDifferent,
    /// Whenever X has a higher count than Y, Y is considered below X.
    /// That is, whenever there are at least 2 different values, all with the lower values go before
    /// all with the higher values. Give up if this does not fully solve it.
    AnyDifferenceIsADiscriminatorGiveUpIfNotFullSolution,
    /// Like AnyDifferenceIsADiscriminatorGiveUpIfNotFullSolution, except instead of giving up if
    /// not a full solution, use the NZ PRNs (Schedule 1A, Local Electoral Regulations 2001, clauses 41 to 48).
    AnyDifferenceIsADiscriminatorUseNZPRNsIfNotFullSolution,
    /// Like AnyDifferenceIsADiscriminatorUseNZPRNsIfNotFullSolution with the apocryphal changes
    /// to the NZ PRN algorithm thought to be used in the official software.
    AnyDifferenceIsADiscriminatorUseApocryphalNZPRNsIfNotFullSolution,
    /// Like AnyDifferenceIsADiscriminatorGiveUpIfNotFullSolution, but if that fails to solve
    /// everything, only the candidates it could not distinguish are left for a draw.
    AnyDifferenceIsADiscriminator,
    /// Like RequireHistoricalCountsToBeAllDifferent, but only considering counts where an action is finished.
    RequireHistoricalCountsToBeAllDifferentOnlyConsideringCountsWhereAnActionIsFinished,
    /// Like AnyDifferenceIsADiscriminatorGiveUpIfNotFullSolution but only considering counts where an action is finished.
    AnyDifferenceIsADiscriminatorOnlyConsideringCountsWhereAnActionIsFinishedGiveUpIfNotFullSolution,
    /// Like AnyDifferenceIsADiscriminator but only considering counts where an action is finished.
    AnyDifferenceIsADiscriminatorOnlyConsideringCountsWhereAnActionIsFinished,
    /// The candidates to be separated out must all have been lower than all the rest at some
    /// prior count (Commonwealth Electoral Act 1918, Section 275, (9), generalised).
    RequireHistoricalUniqueLowest,
}

/// The whole tie, still needing the given granularity.
pub open spec fn whole_range(len: nat, granularity: TieResolutionGranularityNeeded) -> Seq<(int, int, TieResolutionGranularityNeeded)> {
    seq![(0int, len as int, granularity)]
}

/// Nothing left if resolved, else the whole tie.
pub open spec fn unresolved_unless(resolved: bool, len: nat, granularity: TieResolutionGranularityNeeded) -> Seq<(int, int, TieResolutionGranularityNeeded)> {
    if resolved {
        Seq::empty()
    } else {
        whole_range(len, granularity)
    }
}

/// What the countback with any difference as a discriminator, falling back on the New Zealand
/// numbers, does.
pub open spec fn any_different_then_nz_outcome<Tally: TallyValue>(
    transcript: Transcript<Tally>,
    before: Seq<CandidateIndex>,
    after: Seq<CandidateIndex>,
    granularity: TieResolutionGranularityNeeded,
    number_of_candidates: NumberOfCandidates,
    number_of_vacancies: NumberOfCandidates,
    valid_papers: BallotPaperCount,
    apocryphal: bool,
    resolved: bool,
) -> bool {
    let ad = any_different_resolution(transcript.counts@, before, granularity, false);
    if ad.1.len() == 0 {
        resolved && after == ad.0
    } else {
        nz_outcome(
            ad.0,
            after,
            transcript.counts@.len(),
            number_of_candidates.0 as nat,
            number_of_vacancies.0 as nat,
            valid_papers.0 as nat,
            apocryphal,
            resolved,
        )
    }
}

impl MethodOfTieResolution {
    /// Sort tied candidates low to high by the given method of tie resolution. Returns the ranges
    /// of positions the method could not resolve, with the granularity each still needs.
    #[verifier::rlimit(40)]
    pub fn resolve<Tally: TallyValue>(
        self,
        tied_candidates: &mut Vec<CandidateIndex>,
        transcript: &Transcript<Tally>,
        granularity: TieResolutionGranularityNeeded,
        number_of_candidates: NumberOfCandidates,
        number_of_vacancies: NumberOfCandidates,
        valid_papers: BallotPaperCount,
    ) -> (res: Vec<UnresolvedRange>)
        requires
            tallies_cover(transcript.counts@, old(tied_candidates)@),
            self == MethodOfTieResolution::RequireHistoricalUniqueLowest ==> !(granularity
                == TieResolutionGranularityNeeded::LowestSeparated(0) && old(tied_candidates)@.len() > 0),
            self == MethodOfTieResolution::AnyDifferenceIsADiscriminatorUseNZPRNsIfNotFullSolution || self
                == MethodOfTieResolution::AnyDifferenceIsADiscriminatorUseApocryphalNZPRNsIfNotFullSolution ==> forall|i: int|
                0 <= i < old(tied_candidates)@.len() ==> (#[trigger] old(tied_candidates)@[i]).0 < number_of_candidates.0,
        ensures
            ({
                let before = old(tied_candidates)@;
                let after = final(tied_candidates)@;
                let resolved = res@.len() == 0;
                let counts = transcript.counts@;
                match self {
                    MethodOfTieResolution::NoResolution => after == before && ranges_view(res@) == whole_range(
                        before.len(),
                        granularity,
                    ),
                    MethodOfTieResolution::RequireHistoricalCountsToBeAllDifferent => all_different_outcome(
                        counts,
                        before,
                        after,
                        false,
                        resolved,
                    ) && ranges_view(res@) == unresolved_unless(resolved, before.len(), granularity),
                    MethodOfTieResolution::RequireHistoricalCountsToBeAllDifferentOnlyConsideringCountsWhereAnActionIsFinished => all_different_outcome(
                        counts,
                        before,
                        after,
                        true,
                        resolved,
                    ) && ranges_view(res@) == unresolved_unless(resolved, before.len(), granularity),
                    MethodOfTieResolution::AnyDifferenceIsADiscriminatorGiveUpIfNotFullSolution => {
                        let ad = any_different_resolution(counts, before, granularity, false);
                        after == ad.0 && ranges_view(res@) == unresolved_unless(ad.1.len() == 0, before.len(), granularity)
                    },
                    MethodOfTieResolution::AnyDifferenceIsADiscriminatorOnlyConsideringCountsWhereAnActionIsFinishedGiveUpIfNotFullSolution => {
                        let ad = any_different_resolution(counts, before, granularity, true);
                        after == ad.0 && ranges_view(res@) == unresolved_unless(ad.1.len() == 0, before.len(), granularity)
                    },
                    MethodOfTieResolution::AnyDifferenceIsADiscriminator => {
                        let ad = any_different_resolution(counts, before, granularity, false);
                        after == ad.0 && ranges_view(res@) == ad.1
                    },
                    MethodOfTieResolution::AnyDifferenceIsADiscriminatorOnlyConsideringCountsWhereAnActionIsFinished => {
                        let ad = any_different_resolution(counts, before, granularity, true);
                        after == ad.0 && ranges_view(res@) == ad.1
                    },
                    MethodOfTieResolution::AnyDifferenceIsADiscriminatorUseNZPRNsIfNotFullSolution => any_different_then_nz_outcome(
                        *transcript,
                        before,
                        after,
                        granularity,
                        number_of_candidates,
                        number_of_vacancies,
                        valid_papers,
                        false,
                        resolved,
                    ) && ranges_view(res@) == unresolved_unless(resolved, before.len(), granularity),
                    MethodOfTieResolution::AnyDifferenceIsADiscriminatorUseApocryphalNZPRNsIfNotFullSolution => any_different_then_nz_outcome(
                        *transcript,
                        before,
                        after,
                        granularity,
                        number_of_candidates,
                        number_of_vacancies,
                        valid_papers,
                        true,
                        resolved,
                    ) && ranges_view(res@) == unresolved_unless(resolved, before.len(), granularity),
                    MethodOfTieResolution::RequireHistoricalUniqueLowest => unique_minimum_outcome(
                        counts,
                        before,
                        after,
                        granularity,
                        false,
                        resolved,
                    ) && ranges_view(res@) == unresolved_unless(resolved, before.len(), granularity),
                }
            }),
            final(tied_candidates)@.to_multiset() == old(tied_candidates)@.to_multiset(),
            final(tied_candidates)@.len() == old(tied_candidates)@.len(),
            ranges_within(res@, old(tied_candidates)@.len() as int),
    {
        let ghost before = tied_candidates@;
        let resolved = match self {
            MethodOfTieResolution::NoResolution => false,
            MethodOfTieResolution::RequireHistoricalCountsToBeAllDifferent => resolve_ties_require_all_different(
                tied_candidates,
                transcript,
                false,
            ),
            MethodOfTieResolution::AnyDifferenceIsADiscriminatorGiveUpIfNotFullSolution => resolve_ties_any_different_give_up_if_cant_do_everything(
                tied_candidates,
                transcript,
                granularity,
                false,
            ),
            MethodOfTieResolution::AnyDifferenceIsADiscriminatorUseNZPRNsIfNotFullSolution => {
                let solved = resolve_ties_any_different_give_up_if_cant_do_everything(
                    tied_candidates,
                    transcript,
                    granularity,
                    false,
                );
                if solved {
                    true
                } else {
                    proof {
                        lemma_same_elements_keep_bound(before, tied_candidates@, number_of_candidates.0);
                    }
                    resolve_using_NZPRN(
                        tied_candidates,
                        transcript,
                        number_of_candidates,
                        number_of_vacancies,
                        valid_papers,
                        false,
                    )
                }
            },
            MethodOfTieResolution::AnyDifferenceIsADiscriminatorUseApocryphalNZPRNsIfNotFullSolution => {
                let solved = resolve_ties_any_different_give_up_if_cant_do_everything(
                    tied_candidates,
                    transcript,
                    granularity,
                    false,
                );
                if solved {
                    true
                } else {
                    proof {
                        lemma_same_elements_keep_bound(before, tied_candidates@, number_of_candidates.0);
                    }
                    resolve_using_NZPRN(
                        tied_candidates,
                        transcript,
                        number_of_candidates,
                        number_of_vacancies,
                        valid_papers,
                        true,
                    )
                }
            },
            MethodOfTieResolution::AnyDifferenceIsADiscriminator => {
                return resolve_ties_any_different(tied_candidates, transcript, granularity, false);
            },
            MethodOfTieResolution::RequireHistoricalCountsToBeAllDifferentOnlyConsideringCountsWhereAnActionIsFinished => resolve_ties_require_all_different(
                tied_candidates,
                transcript,
                true,
            ),
            MethodOfTieResolution::AnyDifferenceIsADiscriminatorOnlyConsideringCountsWhereAnActionIsFinishedGiveUpIfNotFullSolution => resolve_ties_any_different_give_up_if_cant_do_everything(
                tied_candidates,
                transcript,
                granularity,
                true,
            ),
            MethodOfTieResolution::AnyDifferenceIsADiscriminatorOnlyConsideringCountsWhereAnActionIsFinished => {
                return resolve_ties_any_different(tied_candidates, transcript, granularity, true);
            },
            MethodOfTieResolution::RequireHistoricalUniqueLowest => resolve_ties_require_unique_minimum_granularity(
                tied_candidates,
                transcript,
                granularity,
                false,
            ),
        };
        let mut res: Vec<UnresolvedRange> = Vec::new();
        if !resolved {
            res.push((0, tied_candidates.len(), granularity));
            assert(ranges_view(res@) =~= whole_range(before.len(), granularity));
        }
        res
    }
}

/// A bound on every candidate of a list holds of every candidate of a list with the same elements.
proof fn lemma_same_elements_keep_bound(a: Seq<CandidateIndex>, b: Seq<CandidateIndex>, n: usize)
    requires
        a.to_multiset() == b.to_multiset(),
        forall|i: int| 0 <= i < a.len() ==> (#[trigger] a[i]).0 < n,
    ensures
        forall|i: int| 0 <= i < b.len() ==> (#[trigger] b[i]).0 < n,
{
    broadcast use vstd::seq_lib::group_to_multiset_ensures;
    assert forall|i: int| 0 <= i < b.len() implies (#[trigger] b[i]).0 < n by {
        assert(b.to_multiset().count(b[i]) > 0);
        assert(a.contains(b[i]));
    }
}

/// How finely a tie must be resolved.
#[derive(Debug, Clone, Copy, PartialEq, Eq, Structural)]
pub enum TieResolutionGranularityNeeded {
    /// Require a unique ordering of all candidates.
    Total,
    /// Require the lowest provided number to be separated from the remainder.
    LowestSeparated(usize),
}

/// Decisions made by an electoral commission to resolve ties, in the order they should be tried.
#[derive(Debug, Clone)]
pub struct TieResolutionsMadeByEC {
    pub tie_resolutions: Vec<TieResolutionAtom>,
}

/// A single decision made by an electoral commission.
#[derive(Debug, Clone)]
pub enum TieResolutionAtom {
    /// Old style: candidates in order of increasing favour.
    IncreasingFavour(Vec<CandidateIndex>),
    /// New preferred style.
    ExplicitDecision(TieResolutionExplicitDecisionInCount),
}

/// A decision, possibly tied to the count it came up in.
#[derive(Debug, Clone)]
pub struct TieResolutionExplicitDecisionInCount {
    pub decision: TieResolutionExplicitDecision,
    /// If this came up in an official election, the count it came up in.
    pub came_up_in: Option<CountIndex>,
}

/// A decision between groups of candidates.
#[derive(Debug, Clone)]
pub struct TieResolutionExplicitDecision {
    /// increasing_favour[0] are the candidates least favoured by the EC (got the worst result).
    /// Order within a group doesn't matter. The last group are the candidates most favoured.
    pub increasing_favour: Vec<Vec<CandidateIndex>>,
    pub usage: Option<TieResolutionUsage>,
}

/// What a tie resolution was used for.
#[derive(Debug, Clone, Copy, Eq, PartialEq, Structural)]
pub enum TieResolutionUsage {
    Exclusion,
    OrderElected,
    ShortcutWinner,
    /// Usually OrderElected, unless this is present earlier in the list.
    OrderSurplusDistributed,
    /// For NSW stochastic rounding.
    RoundingUp,
}

impl TieResolutionsMadeByEC {
    /// No decisions.
    pub fn default() -> (res: Self)
        ensures
            res.tie_resolutions@.len() == 0,
            ec_wf(res.tie_resolutions@),
    {
        TieResolutionsMadeByEC { tie_resolutions: Vec::new() }
    }

    /// Simple constructor that checks to see that a candidate is not repeated, which would be
    /// ambiguous.
    pub fn new(tie_resolutions: Vec<Vec<CandidateIndex>>) -> (res: Result<Self, TieResolutionError>)
        ensures
            match res {
                Ok(r) => (forall|i: int| 0 <= i < tie_resolutions@.len() ==> !has_repeats(#[trigger] tie_resolutions@[i]@))
                    && r.tie_resolutions@.len() == tie_resolutions@.len()
                    && forall|i: int| 0 <= i < tie_resolutions@.len() ==> r.tie_resolutions@[i] == TieResolutionAtom::IncreasingFavour(#[trigger] tie_resolutions@[i])
                    && ec_wf(r.tie_resolutions@),
                Err(TieResolutionError::RepeatedCandidate(d)) => exists|i: int| 0 <= i < tie_resolutions@.len()
                    && (forall|j: int| 0 <= j < i ==> !has_repeats(#[trigger] tie_resolutions@[j]@))
                    && has_repeats(tie_resolutions@[i]@) && d@ == tie_resolutions@[i]@,
            },
    {
        for i in 0..tie_resolutions.len()
            invariant
                forall|j: int| 0 <= j < i ==> !has_repeats(#[trigger] tie_resolutions@[j]@),
        {
            if has_repeated_candidate(&tie_resolutions[i]) {
                return Err(TieResolutionError::RepeatedCandidate(tie_resolutions[i].clone()));
            }
        }
        let mut atoms: Vec<TieResolutionAtom> = Vec::new();
        let mut rest = tie_resolutions;
        let ghost orig = rest@;
        let mut k: usize = 0;
        let n = rest.len();
        while k < n
            invariant
                n == orig.len(),
                k <= n,
                rest@ == orig.skip(k as int),
                atoms@.len() == k,
                forall|i: int| 0 <= i < k ==> atoms@[i] == TieResolutionAtom::IncreasingFavour(#[trigger] orig[i]),
            decreases n - k,
        {
            let d = rest.remove(0);
            atoms.push(TieResolutionAtom::IncreasingFavour(d));
            assert(orig.skip(k as int).skip(1) =~= orig.skip(k + 1));
            k = k + 1;
        }
        assert forall|i: int| 0 <= i < atoms@.len() implies (#[trigger] atoms@[i] matches TieResolutionAtom::IncreasingFavour(
            d,
        ) ==> !has_repeats(d@)) by {
            assert(atoms@[i] == TieResolutionAtom::IncreasingFavour(orig[i]));
        }
        Ok(TieResolutionsMadeByEC { tie_resolutions: atoms })
    }

    /// Sort tied_candidates appropriately (low to high), and then return a description of what was done.
    /// If all else fails, use randomness.
    pub fn resolve(
        &self,
        tied_candidates: &mut Vec<CandidateIndex>,
        granularity: TieResolutionGranularityNeeded,
        usage: TieResolutionUsage,
        current_count: CountIndex,
        randomness: &mut Randomness,
    ) -> (res: TieResolutionExplicitDecision)
        requires
            !has_repeats(old(tied_candidates)@),
            granularity matches TieResolutionGranularityNeeded::LowestSeparated(d) ==> d <= old(tied_candidates)@.len(),
        ensures
            match ec_order(self.tie_resolutions@, old(tied_candidates)@, granularity, usage, current_count) {
                Some(order) => final(tied_candidates)@ == order && *final(randomness) == *old(randomness),
                None => {
                    &&& final(tied_candidates)@.to_multiset() == old(tied_candidates)@.to_multiset()
                    &&& final(tied_candidates)@.len() == old(tied_candidates)@.len()
                    &&& (*old(randomness) is ReverseDonkeyVote) ==> sorted_by_index(final(tied_candidates)@)
                },
            },
            res.usage == Some(usage),
            groups_of(res) == resolution_groups(final(tied_candidates)@, granularity),
            ec_wf(self.tie_resolutions@) ==> final(tied_candidates)@.to_multiset() == old(tied_candidates)@.to_multiset()
                && final(tied_candidates)@.len() == old(tied_candidates)@.len(),
    {
        proof {
            if ec_wf(self.tie_resolutions@) {
                lemma_ec_order_permutes(self.tie_resolutions@, tied_candidates@, granularity, usage, current_count);
            }
        }
        self.resolve_work(tied_candidates, granularity, usage, current_count, randomness);
        TieResolutionExplicitDecision::from_resolution(tied_candidates.as_slice(), granularity, usage)
    }

    #[verifier::loop_isolation(false)]
    fn resolve_work(
        &self,
        tied_candidates: &mut Vec<CandidateIndex>,
        granularity: TieResolutionGranularityNeeded,
        usage: TieResolutionUsage,
        current_count: CountIndex,
        randomness: &mut Randomness,
    )
        requires
            !has_repeats(old(tied_candidates)@),
            granularity matches TieResolutionGranularityNeeded::LowestSeparated(d) ==> d <= old(tied_candidates)@.len(),
        ensures
            match ec_order(self.tie_resolutions@, old(tied_candidates)@, granularity, usage, current_count) {
                Some(order) => final(tied_candidates)@ == order && *final(randomness) == *old(randomness),
                None => {
                    &&& final(tied_candidates)@.to_multiset() == old(tied_candidates)@.to_multiset()
                    &&& final(tied_candidates)@.len() == old(tied_candidates)@.len()
                    &&& (*old(randomness) is ReverseDonkeyVote) ==> sorted_by_index(final(tied_candidates)@)
                },
            },
            granularity matches TieResolutionGranularityNeeded::LowestSeparated(d) ==> d <= final(tied_candidates)@.len(),
    {
        let ghost orig = tied_candidates@;
        let ghost atoms = self.tie_resolutions@;
        assert(atoms.skip(0) =~= atoms);
        for k in 0..self.tie_resolutions.len()
            invariant
                tied_candidates@ == orig,
                ec_order(atoms, orig, granularity, usage, current_count) == ec_order(
                    atoms.skip(k as int),
                    orig,
                    granularity,
                    usage,
                    current_count,
                ),
        {
            proof {
                assert(atoms.skip(k as int)[0] == atoms[k as int]);
                assert(atoms.skip(k as int).skip(1) =~= atoms.skip(k + 1));
            }
            match &self.tie_resolutions[k] {
                TieResolutionAtom::IncreasingFavour(decision) => {
                    let deemed = filter_by_membership(decision.as_slice(), tied_candidates.as_slice(), true);
                    if deemed.len() == tied_candidates.len() {
                        *tied_candidates = deemed;
                        return;
                    }
                    if granularity == TieResolutionGranularityNeeded::LowestSeparated(1) && decision.len() == 2
                        && deemed.len() == 2 {
                        let last = decision[0];
                        let mut lasts: Vec<CandidateIndex> = Vec::new();
                        lasts.push(last);
                        let mut rest = filter_by_membership(tied_candidates.as_slice(), lasts.as_slice(), false);
                        let mut order = lasts.clone();
                        order.append(&mut rest);
                        assert(lasts@ =~= seq![decision@[0]]);
                        proof {
                            lemma_keep_if_in_len_two(decision@, orig);
                        }
                        *tied_candidates = order;
                        return;
                    }
                },
                TieResolutionAtom::ExplicitDecision(in_count) => {
                    let decision = &in_count.decision;
                    let appropriate_usage = match decision.usage {
                        None => true,
                        Some(TieResolutionUsage::Exclusion) => usage == TieResolutionUsage::Exclusion,
                        Some(TieResolutionUsage::OrderElected) => usage == TieResolutionUsage::OrderElected || usage
                            == TieResolutionUsage::OrderSurplusDistributed,
                        Some(TieResolutionUsage::ShortcutWinner) => usage == TieResolutionUsage::ShortcutWinner,
                        Some(TieResolutionUsage::OrderSurplusDistributed) => usage
                            == TieResolutionUsage::OrderSurplusDistributed,
                        Some(TieResolutionUsage::RoundingUp) => usage == TieResolutionUsage::RoundingUp,
                    };
                    let appropriate_time = match in_count.came_up_in {
                        None => true,
                        Some(c) => c.0 == current_count.0,
                    };
                    let appropriate_division = decision.divides_as(granularity);
                    if appropriate_usage && appropriate_time && appropriate_division
                        && decision.mentions_exactly_these_candidates(tied_candidates.as_slice()) {
                        *tied_candidates = decision.all_mentioned();
                        return;
                    }
                },
            }
        }
        randomness.resolve(tied_candidates);
    }
}

/// True iff some candidate is named twice.
fn has_repeated_candidate(v: &Vec<CandidateIndex>) -> (res: bool)
    ensures
        res == has_repeats(v@),
{
    for i in 0..v.len()
        invariant
            forall|a: int, b: int| 0 <= a < b < v@.len() && a < i ==> v@[a] != v@[b],
    {
        for j in i + 1..v.len()
            invariant
                i < v@.len(),
                forall|a: int, b: int| 0 <= a < b < v@.len() && a < i ==> v@[a] != v@[b],
                forall|b: int| i < b < j ==> v@[i as int] != v@[b],
        {
            if v[i] == v[j] {
                assert(v@[i as int] == v@[j as int]);
                return true;
            }
        }
    }
    false
}

/// If two kept members of a two element decision are found among distinct tied candidates, the
/// first of them is among the tied candidates, so putting it first keeps the length.
proof fn lemma_keep_if_in_len_two(decision: Seq<CandidateIndex>, tied: Seq<CandidateIndex>)
    requires
        decision.len() == 2,
        keep_if_in(decision, tied, true).len() == 2,
        !has_repeats(tied),
    ensures
        tied.contains(decision[0]),
        keep_if_in(tied, seq![decision[0]], false).len() + 1 == tied.len(),
{
    assert(decision.drop_last().drop_last() =~= Seq::<CandidateIndex>::empty());
    assert(decision.drop_last().last() == decision[0]);
    reveal_with_fuel(keep_if_in, 3);
    lemma_remove_distinct_one(tied, decision[0]);
}

/// Removing a candidate that occurs once from a list shortens it by one.
proof fn lemma_remove_distinct_one(s: Seq<CandidateIndex>, c: CandidateIndex)
    requires
        !has_repeats(s),
        s.contains(c),
    ensures
        keep_if_in(s, seq![c], false).len() + 1 == s.len(),
    decreases s.len(),
{
    if s.last() == c {
        assert(seq![c][0] == c);
        assert(seq![c].contains(s.last()));
        assert forall|x: CandidateIndex| s.drop_last().contains(x) implies x != c by {
            let k = choose|k: int| 0 <= k < s.drop_last().len() && s.drop_last()[k] == x;
            assert(s[k] == x);
            assert(s[s.len() - 1] == c);
        }
        lemma_keep_none_removed(s.drop_last(), c);
    } else {
        assert(!seq![c].contains(s.last())) by {
            if seq![c].contains(s.last()) {
                assert(seq![c][0] == c);
            }
        }
        let k = choose|k: int| 0 <= k < s.len() && s[k] == c;
        assert(s.drop_last()[k] == c);
        assert(!has_repeats(s.drop_last())) by {
            if has_repeats(s.drop_last()) {
                let (a, b) = choose|a: int, b: int| 0 <= a < b < s.drop_last().len() && s.drop_last()[a] == s.drop_last()[b];
                assert(s[a] == s[b]);
            }
        }
        lemma_remove_distinct_one(s.drop_last(), c);
    }
}

/// Removing a candidate that does not occur leaves the length.
proof fn lemma_keep_none_removed(s: Seq<CandidateIndex>, c: CandidateIndex)
    requires
        !s.contains(c),
    ensures
        keep_if_in(s, seq![c], false).len() == s.len(),
    decreases s.len(),
{
    if s.len() > 0 {
        assert(!seq![c].contains(s.last())) by {
            if seq![c].contains(s.last()) {
                assert(seq![c][0] == c);
                assert(s[s.len() - 1] == c);
            }
        }
        assert forall|x: CandidateIndex| s.drop_last().contains(x) implies x != c by {
            let k = choose|k: int| 0 <= k < s.drop_last().len() && s.drop_last()[k] == x;
            assert(s[k] == x);
        }
        lemma_keep_none_removed(s.drop_last(), c);
    }
}

/// The old style decisions name no candidate twice, as `new` checks.
pub open spec fn ec_wf(atoms: Seq<TieResolutionAtom>) -> bool {
    forall|i: int|
        0 <= i < atoms.len() ==> (#[trigger] atoms[i] matches TieResolutionAtom::IncreasingFavour(d) ==> !has_repeats(d@))
}

/// The members kept are the members of `s` that are (or are not) in `other`, without repeats if
/// `s` has none.
pub(crate) proof fn lemma_keep_if_in_members(s: Seq<CandidateIndex>, other: Seq<CandidateIndex>, keep: bool)
    ensures
        forall|x: CandidateIndex| #[trigger] keep_if_in(s, other, keep).contains(x) <==> s.contains(x) && other.contains(x) == keep,
        !has_repeats(s) ==> !has_repeats(keep_if_in(s, other, keep)),
    decreases s.len(),
{
    if s.len() > 0 {
        let p = s.drop_last();
        lemma_keep_if_in_members(p, other, keep);
        let k = keep_if_in(p, other, keep);
        assert forall|x: CandidateIndex| s.contains(x) <==> p.contains(x) || x == s.last() by {
            if s.contains(x) {
                let j = choose|j: int| 0 <= j < s.len() && s[j] == x;
                if j < s.len() - 1 {
                    assert(p[j] == x);
                }
            }
            if p.contains(x) {
                let j = choose|j: int| 0 <= j < p.len() && p[j] == x;
                assert(s[j] == x);
            }
            if x == s.last() {
                assert(s[s.len() - 1] == x);
            }
        }
        assert forall|x: CandidateIndex| #[trigger] keep_if_in(s, other, keep).contains(x) <==> s.contains(x) && other.contains(x) == keep by {
            assert(k.contains(x) <==> p.contains(x) && other.contains(x) == keep);
            if other.contains(s.last()) == keep {
                assert(keep_if_in(s, other, keep) == k.push(s.last()));
                if k.push(s.last()).contains(x) {
                    let j = choose|j: int| 0 <= j < k.push(s.last()).len() && k.push(s.last())[j] == x;
                    if j < k.len() {
                        assert(k[j] == x);
                    }
                }
                if k.contains(x) {
                    let j = choose|j: int| 0 <= j < k.len() && k[j] == x;
                    assert(k.push(s.last())[j] == x);
                }
                if x == s.last() {
                    assert(k.push(s.last())[k.len() as int] == x);
                }
            }
        }
        if !has_repeats(s) {
            assert(!has_repeats(p)) by {
                if has_repeats(p) {
                    let (i, j) = choose|i: int, j: int| 0 <= i < j < p.len() && p[i] == p[j];
                    assert(s[i] == s[j]);
                }
            }
            assert(!p.contains(s.last())) by {
                if p.contains(s.last()) {
                    let j = choose|j: int| 0 <= j < p.len() && p[j] == s.last();
                    assert(s[j] == s[s.len() - 1]);
                }
            }
            if other.contains(s.last()) == keep {
                assert(!has_repeats(k.push(s.last()))) by {
                    if has_repeats(k.push(s.last())) {
                        let (i, j) = choose|i: int, j: int| 0 <= i < j < k.push(s.last()).len() && k.push(s.last())[i]
                            == k.push(s.last())[j];
                        if j == k.len() {
                            assert(k.contains(k[i]));
                        } else {
                            assert(k[i] == k[j]);
                        }
                    }
                }
            }
        }
    }
}

/// A list without repeats, and a list just as long holding each of its members, have the same
/// members the same number of times.
pub proof fn lemma_same_length_covering(a: Seq<CandidateIndex>, b: Seq<CandidateIndex>)
    requires
        !has_repeats(a),
        a.len() == b.len(),
        forall|i: int| 0 <= i < a.len() ==> b.contains(#[trigger] a[i]),
    ensures
        a.to_multiset() == b.to_multiset(),
        !has_repeats(b),
{
    broadcast use vstd::seq_lib::group_to_multiset_ensures, vstd::seq_lib::seq_to_set_is_finite;
    assert(a.no_duplicates()) by {
        assert forall|i: int, j: int| 0 <= i < a.len() && 0 <= j < a.len() && i != j implies a[i] != a[j] by {
            if a[i] == a[j] {
                assert(has_repeats(a));
            }
        }
    }
    a.unique_seq_to_set();
    b.lemma_cardinality_of_set();
    assert(a.to_set().subset_of(b.to_set())) by {
        assert forall|x: CandidateIndex| a.to_set().contains(x) implies b.to_set().contains(x) by {
            let i = choose|i: int| 0 <= i < a.len() && a[i] == x;
            assert(b.contains(a[i]));
        }
    }
    vstd::set_lib::lemma_len_subset(a.to_set(), b.to_set());
    b.lemma_no_dup_set_cardinality();
    vstd::set_lib::lemma_subset_equality(a.to_set(), b.to_set());
    a.lemma_multiset_has_no_duplicates();
    b.lemma_multiset_has_no_duplicates();
    assert forall|x: CandidateIndex| a.to_multiset().count(x) == b.to_multiset().count(x) by {
        assert(a.contains(x) <==> a.to_set().contains(x));
        assert(b.contains(x) <==> b.to_set().contains(x));
        if a.contains(x) {
            assert(a.to_multiset().contains(x));
            assert(b.to_multiset().contains(x));
        } else {
            assert(!b.contains(x));
        }
    }
    assert(a.to_multiset() =~= b.to_multiset());
    if has_repeats(b) {
        let (i, j) = choose|i: int, j: int| 0 <= i < j < b.len() && b[i] == b[j];
        assert(b.no_duplicates());
    }
}

/// The order a decision of the electoral commission puts distinct tied candidates in holds the
/// same candidates, when no old style decision names a candidate twice.
pub proof fn lemma_ec_order_permutes(
    atoms: Seq<TieResolutionAtom>,
    tied: Seq<CandidateIndex>,
    granularity: TieResolutionGranularityNeeded,
    usage: TieResolutionUsage,
    current_count: CountIndex,
)
    requires
        ec_wf(atoms),
        !has_repeats(tied),
    ensures
        ec_order(atoms, tied, granularity, usage, current_count) matches Some(o) ==> o.to_multiset() == tied.to_multiset()
            && o.len() == tied.len(),
    decreases atoms.len(),
{
    if atoms.len() > 0 {
        match atom_order(atoms[0], tied, granularity, usage, current_count) {
            Some(o) => {
                match atoms[0] {
                    TieResolutionAtom::IncreasingFavour(decision) => {
                        assert(!has_repeats(decision@));
                        let deemed = keep_if_in(decision@, tied, true);
                        lemma_keep_if_in_members(decision@, tied, true);
                        if deemed.len() == tied.len() {
                            assert forall|i: int| 0 <= i < deemed.len() implies tied.contains(#[trigger] deemed[i]) by {
                                assert(deemed.contains(deemed[i]));
                            }
                            lemma_same_length_covering(deemed, tied);
                        } else {
                            lemma_keep_if_in_len_two(decision@, tied);
                            let d0 = decision@[0];
                            let rest = keep_if_in(tied, seq![d0], false);
                            lemma_keep_if_in_members(tied, seq![d0], false);
                            assert(seq![d0][0] == d0);
                            assert(seq![d0].contains(d0));
                            assert(!rest.contains(d0));
                            assert(!has_repeats(seq![d0] + rest)) by {
                                if has_repeats(seq![d0] + rest) {
                                    let (i, j) = choose|i: int, j: int| 0 <= i < j < (seq![d0] + rest).len() && (seq![d0]
                                        + rest)[i] == (seq![d0] + rest)[j];
                                    if i == 0 {
                                        assert(rest.contains(rest[j - 1]));
                                    } else {
                                        assert(rest[i - 1] == rest[j - 1]);
                                    }
                                }
                            }
                            assert forall|i: int| 0 <= i < (seq![d0] + rest).len() implies tied.contains(
                                #[trigger] (seq![d0] + rest)[i],
                            ) by {
                                if i > 0 {
                                    assert(rest.contains(rest[i - 1]));
                                }
                            }
                            lemma_same_length_covering(seq![d0] + rest, tied);
                        }
                    },
                    TieResolutionAtom::ExplicitDecision(d) => {
                        lemma_same_length_covering(tied, concat_all(groups_of(d.decision)));
                    },
                }
            },
            None => {
                assert(ec_wf(atoms.skip(1))) by {
                    assert forall|i: int| 0 <= i < atoms.skip(1).len() implies (#[trigger] atoms.skip(1)[i] matches TieResolutionAtom::IncreasingFavour(d) ==> !has_repeats(d@)) by {
                        assert(atoms.skip(1)[i] == atoms[i + 1]);
                    }
                }
                lemma_ec_order_permutes(atoms.skip(1), tied, granularity, usage, current_count);
            },
        }
    }
}

/// Why a list of tie resolutions was refused.
#[derive(Debug, Clone)]
pub enum TieResolutionError {
    /// A decision named the same candidate more than once.
    RepeatedCandidate(Vec<CandidateIndex>),
}

/// The groups of a decision, as sequences.
pub open spec fn groups_of(d: TieResolutionExplicitDecision) -> Seq<Seq<CandidateIndex>> {
    d.increasing_favour@.map_values(|v: Vec<CandidateIndex>| v@)
}

/// All the members of the groups, in order.
pub open spec fn concat_all(gs: Seq<Seq<CandidateIndex>>) -> Seq<CandidateIndex>
    decreases gs.len(),
{
    if gs.len() == 0 {
        Seq::empty()
    } else {
        concat_all(gs.drop_last()) + gs.last()
    }
}

/// True iff a sequence names some candidate twice.
pub open spec fn has_repeats(s: Seq<CandidateIndex>) -> bool {
    exists|i: int, j: int| 0 <= i < j < s.len() && s[i] == s[j]
}

/// The sequence with one candidate removed wherever it occurs.
pub open spec fn without(s: Seq<CandidateIndex>, c: CandidateIndex) -> Seq<CandidateIndex>
    decreases s.len(),
{
    if s.len() == 0 {
        Seq::empty()
    } else if s.last() == c {
        without(s.drop_last(), c)
    } else {
        without(s.drop_last(), c).push(s.last())
    }
}

/// The a'th candidate of group i-1 comes no later on the ballot than the b'th candidate of group i.
pub open spec fn pair_in_ballot_order(gs: Seq<Seq<CandidateIndex>>, i: int, a: int, b: int) -> bool {
    1 <= i < gs.len() && 0 <= a < gs[i - 1].len() && 0 <= b < gs[i].len() ==> gs[i - 1][a].0 <= gs[i][b].0
}

/// Every candidate in a group comes no earlier on the ballot than every candidate in the group before.
pub open spec fn groups_in_ballot_order(gs: Seq<Seq<CandidateIndex>>) -> bool {
    forall|i: int, a: int, b: int| #[trigger] pair_in_ballot_order(gs, i, a, b)
}

/// The groups recording a resolved order: each candidate on its own when a total order was
/// needed, else the lowest `d` and the rest.
pub open spec fn resolution_groups(order: Seq<CandidateIndex>, granularity: TieResolutionGranularityNeeded) -> Seq<Seq<CandidateIndex>> {
    match granularity {
        TieResolutionGranularityNeeded::Total => order.map_values(|c: CandidateIndex| seq![c]),
        TieResolutionGranularityNeeded::LowestSeparated(d) => seq![order.take(d as int), order.skip(d as int)],
    }
}

/// Whether a decision made for one use may be used for another. A decision on the order of
/// election also orders surplus distributions.
pub open spec fn usage_matches(decided: Option<TieResolutionUsage>, usage: TieResolutionUsage) -> bool {
    match decided {
        None => true,
        Some(TieResolutionUsage::OrderElected) => usage == TieResolutionUsage::OrderElected || usage
            == TieResolutionUsage::OrderSurplusDistributed,
        Some(u) => usage == u,
    }
}

/// Whether a decision is for the current count (or for any count).
pub open spec fn time_matches(came_up_in: Option<CountIndex>, current_count: CountIndex) -> bool {
    match came_up_in {
        None => true,
        Some(c) => c == current_count,
    }
}

/// Whether the groups of a decision separate candidates as finely as needed, and no finer.
pub open spec fn division_matches(gs: Seq<Seq<CandidateIndex>>, granularity: TieResolutionGranularityNeeded) -> bool {
    match granularity {
        TieResolutionGranularityNeeded::Total => forall|i: int| 0 <= i < gs.len() ==> (#[trigger] gs[i]).len() == 1,
        TieResolutionGranularityNeeded::LowestSeparated(n) => gs.len() == 2 && gs[0].len() == n,
    }
}

/// The decision names as many candidates as are tied, and each tied candidate.
pub open spec fn mentions_exactly(gs: Seq<Seq<CandidateIndex>>, tied: Seq<CandidateIndex>) -> bool {
    tied.len() == concat_all(gs).len() && forall|i: int| 0 <= i < tied.len() ==> concat_all(gs).contains(#[trigger] tied[i])
}

/// The order (low to high) a single decision of the electoral commission puts the tied candidates
/// in, if it settles this tie.
pub open spec fn atom_order(
    atom: TieResolutionAtom,
    tied: Seq<CandidateIndex>,
    granularity: TieResolutionGranularityNeeded,
    usage: TieResolutionUsage,
    current_count: CountIndex,
) -> Option<Seq<CandidateIndex>> {
    match atom {
        TieResolutionAtom::IncreasingFavour(decision) => {
            let deemed = keep_if_in(decision@, tied, true);
            if deemed.len() == tied.len() {
                Some(deemed)
            } else if granularity == TieResolutionGranularityNeeded::LowestSeparated(1) && decision@.len() == 2
                && deemed.len() == 2 {
                // the least favoured of the two goes first, the rest keep their order.
                Some(seq![decision@[0]] + keep_if_in(tied, seq![decision@[0]], false))
            } else {
                None
            }
        },
        TieResolutionAtom::ExplicitDecision(d) => {
            let gs = groups_of(d.decision);
            if usage_matches(d.decision.usage, usage) && time_matches(d.came_up_in, current_count)
                && division_matches(gs, granularity) && mentions_exactly(gs, tied) {
                Some(concat_all(gs))
            } else {
                None
            }
        },
    }
}

/// The order given by the first decision in the list that settles the tie, if any does.
pub open spec fn ec_order(
    atoms: Seq<TieResolutionAtom>,
    tied: Seq<CandidateIndex>,
    granularity: TieResolutionGranularityNeeded,
    usage: TieResolutionUsage,
    current_count: CountIndex,
) -> Option<Seq<CandidateIndex>>
    decreases atoms.len(),
{
    if atoms.len() == 0 {
        None
    } else {
        match atom_order(atoms[0], tied, granularity, usage, current_count) {
            Some(o) => Some(o),
            None => ec_order(atoms.skip(1), tied, granularity, usage, current_count),
        }
    }
}

/// Text naming a usage.
pub open spec fn usage_from_text(s: Seq<char>) -> Option<TieResolutionUsage> {
    if s == "Exclusion"@ {
        Some(TieResolutionUsage::Exclusion)
    } else if s == "OrderElected"@ {
        Some(TieResolutionUsage::OrderElected)
    } else if s == "ShortcutWinner"@ {
        Some(TieResolutionUsage::ShortcutWinner)
    } else if s == "OrderSurplusDistributed"@ {
        Some(TieResolutionUsage::OrderSurplusDistributed)
    } else if s == "RoundingUp"@ {
        Some(TieResolutionUsage::RoundingUp)
    } else {
        None
    }
}

impl TieResolutionUsage {
    /// Read a usage from its name.
    pub fn from_text(s: &str) -> (res: Result<Self, &'static str>)
        ensures
            match usage_from_text(s@) {
                Some(u) => res == Ok::<TieResolutionUsage, &'static str>(u),
                None => res is Err,
            },
    {
        if crate::text::str_equals(s, "Exclusion") {
            Ok(TieResolutionUsage::Exclusion)
        } else if crate::text::str_equals(s, "OrderElected") {
            Ok(TieResolutionUsage::OrderElected)
        } else if crate::text::str_equals(s, "ShortcutWinner") {
            Ok(TieResolutionUsage::ShortcutWinner)
        } else if crate::text::str_equals(s, "OrderSurplusDistributed") {
            Ok(TieResolutionUsage::OrderSurplusDistributed)
        } else if crate::text::str_equals(s, "RoundingUp") {
            Ok(TieResolutionUsage::RoundingUp)
        } else {
            Err("no such tie resolution usage")
        }
    }
}

proof fn lemma_concat_all_push(gs: Seq<Seq<CandidateIndex>>, g: Seq<CandidateIndex>)
    ensures
        concat_all(gs.push(g)) == concat_all(gs) + g,
{
    assert(gs.push(g).drop_last() == gs);
}

impl TieResolutionExplicitDecision {
    /// Make a decision from the common case of two lists of candidates, one favoured over the other.
    pub fn two_lists(disfavoured: Vec<CandidateIndex>, favoured: Vec<CandidateIndex>) -> (res: Self)
        ensures
            groups_of(res) == seq![disfavoured@, favoured@],
            res.usage is None,
    {
        let mut increasing_favour: Vec<Vec<CandidateIndex>> = Vec::new();
        increasing_favour.push(disfavoured);
        increasing_favour.push(favoured);
        let res = TieResolutionExplicitDecision { increasing_favour, usage: None };
        assert(groups_of(res) =~= seq![disfavoured@, favoured@]);
        res
    }

    /// Make a decision given a final ordering of candidates, a granularity and a usage.
    pub fn from_resolution(resolved_order: &[CandidateIndex], granularity: TieResolutionGranularityNeeded, usage: TieResolutionUsage) -> (res: Self)
        requires
            granularity matches TieResolutionGranularityNeeded::LowestSeparated(d) ==> d <= resolved_order@.len(),
        ensures
            res.usage == Some(usage),
            groups_of(res) == resolution_groups(resolved_order@, granularity),
    {
        match granularity {
            TieResolutionGranularityNeeded::Total => {
                let mut increasing_favour: Vec<Vec<CandidateIndex>> = Vec::new();
                for i in 0..resolved_order.len()
                    invariant
                        increasing_favour@.len() == i,
                        forall|j: int| 0 <= j < i ==> (#[trigger] increasing_favour@[j])@ == seq![resolved_order@[j]],
                {
                    let mut single: Vec<CandidateIndex> = Vec::new();
                    single.push(resolved_order[i]);
                    assert(single@ =~= seq![resolved_order@[i as int]]);
                    increasing_favour.push(single);
                }
                let res = TieResolutionExplicitDecision { increasing_favour, usage: Some(usage) };
                assert(groups_of(res) =~= resolved_order@.map_values(|c: CandidateIndex| seq![c]));
                res
            },
            TieResolutionGranularityNeeded::LowestSeparated(disfavoured) => {
                let mut low: Vec<CandidateIndex> = Vec::new();
                let mut high: Vec<CandidateIndex> = Vec::new();
                for i in 0..resolved_order.len()
                    invariant
                        disfavoured <= resolved_order@.len(),
                        i <= disfavoured ==> low@ == resolved_order@.take(i as int) && high@.len() == 0,
                        i > disfavoured ==> low@ == resolved_order@.take(disfavoured as int) && high@
                            == resolved_order@.subrange(disfavoured as int, i as int),
                {
                    if i < disfavoured {
                        low.push(resolved_order[i]);
                        assert(resolved_order@.take(i + 1) == resolved_order@.take(i as int).push(resolved_order@[i as int]));
                    } else {
                        high.push(resolved_order[i]);
                        assert(resolved_order@.subrange(disfavoured as int, i + 1) == resolved_order@.subrange(
                            disfavoured as int,
                            i as int,
                        ).push(resolved_order@[i as int]));
                    }
                }
                let ghost low_v = low@;
                let ghost high_v = high@;
                if disfavoured == resolved_order.len() {
                    assert(resolved_order@.skip(disfavoured as int) =~= high_v);
                } else {
                    assert(resolved_order@.subrange(disfavoured as int, resolved_order@.len() as int) =~= resolved_order@.skip(
                        disfavoured as int,
                    ));
                }
                let mut increasing_favour: Vec<Vec<CandidateIndex>> = Vec::new();
                increasing_favour.push(low);
                increasing_favour.push(high);
                let res = TieResolutionExplicitDecision { increasing_favour, usage: Some(usage) };
                assert(res.increasing_favour@[0]@ == low_v);
                assert(res.increasing_favour@[1]@ == high_v);
                assert(groups_of(res) =~= seq![resolved_order@.take(disfavoured as int), resolved_order@.skip(disfavoured as int)]);
                res
            },
        }
    }

    /// The AEC seemed some years to resolve all decisions by reverse donkey vote: that is
    /// candidate i is favoured over j iff i>j. See if this is one: every candidate in a group
    /// comes no earlier on the ballot than every candidate in the group before.
    #[verifier::loop_isolation(false)]
    pub fn is_reverse_donkey_vote(&self) -> (res: bool)
        ensures
            res == groups_in_ballot_order(groups_of(*self)),
    {
        let ghost gs = groups_of(*self);
        let mut i: usize = 1;
        if self.increasing_favour.len() == 0 {
            assert forall|k: int, a: int, b: int| #[trigger] pair_in_ballot_order(gs, k, a, b) by {}
            return true;
        }
        while i < self.increasing_favour.len()
            invariant
                1 <= i <= self.increasing_favour@.len(),
                gs == groups_of(*self),
                gs.len() == self.increasing_favour@.len(),
                forall|k: int, a: int, b: int| k < i ==> #[trigger] pair_in_ballot_order(gs, k, a, b),
            decreases self.increasing_favour@.len() - i,
        {
            let prev = &self.increasing_favour[i - 1];
            let cur = &self.increasing_favour[i];
            assert(prev@ == gs[i - 1]);
            assert(cur@ == gs[i as int]);
            for a in 0..prev.len()
                invariant
                    prev@ == gs[i - 1],
                    cur@ == gs[i as int],
                    forall|x: int, b: int| 0 <= x < a && 0 <= b < cur@.len() ==> #[trigger] prev@[x].0 <= #[trigger] cur@[b].0,
            {
                for b in 0..cur.len()
                    invariant
                        prev@ == gs[i - 1],
                        cur@ == gs[i as int],
                        a < prev@.len(),
                        forall|x: int, y: int| 0 <= x < a && 0 <= y < cur@.len() ==> #[trigger] prev@[x].0 <= #[trigger] cur@[y].0,
                        forall|y: int| 0 <= y < b ==> prev@[a as int].0 <= #[trigger] cur@[y].0,
                {
                    if prev[a].0 > cur[b].0 {
                        assert(!pair_in_ballot_order(gs, i as int, a as int, b as int));
                        return false;
                    }
                }
            }
            assert forall|k: int, a: int, b: int| k < i + 1 implies #[trigger] pair_in_ballot_order(gs, k, a, b) by {
                if k == i && 0 <= a < gs[k - 1].len() && 0 <= b < gs[k].len() {
                    assert(prev@[a].0 <= cur@[b].0);
                }
            }
            i = i + 1;
        }
        assert forall|k: int, a: int, b: int| #[trigger] pair_in_ballot_order(gs, k, a, b) by {
            if k < i {
            }
        }
        true
    }

    /// If the decision can be represented as a set of disfavoured and a set of favoured candidates,
    /// extract them, as (disfavoured, favoured).
    fn extract_disfavoured_and_favoured(&self) -> (res: Option<(&Vec<CandidateIndex>, &Vec<CandidateIndex>)>)
        ensures
            match res {
                Some((d, f)) => groups_of(*self).len() == 2 && d@ == groups_of(*self)[0] && f@ == groups_of(*self)[1],
                None => groups_of(*self).len() != 2,
            },
    {
        if self.increasing_favour.len() == 2 {
            Some((&self.increasing_favour[0], &self.increasing_favour[1]))
        } else {
            None
        }
    }

    /// See if a different decision here could explain different people being excluded.
    /// The different result is summarized in excluded_deltas where list1 is the desired
    /// candidate(s) to exclude, and list2 contains the candidate(s) excluded by this decision.
    /// If such a different decision exists, return it.
    #[verifier::loop_isolation(false)]
    pub fn could_a_different_decision_have_caused_different_candidates_to_be_excluded(&self, excluded_deltas: &DeltasInCandidateLists) -> (res: Option<TieResolutionExplicitDecision>)
        ensures
            match res {
                Some(d) => {
                    &&& (self.usage is None || self.usage == Some(TieResolutionUsage::Exclusion))
                    &&& groups_of(*self).len() == 2
                    &&& forall|i: int| 0 <= i < excluded_deltas.list1only@.len() ==> groups_of(*self)[1].contains(#[trigger] excluded_deltas.list1only@[i])
                    &&& forall|i: int| 0 <= i < excluded_deltas.list2only@.len() ==> groups_of(*self)[0].contains(#[trigger] excluded_deltas.list2only@[i])
                    &&& d.usage == self.usage
                    &&& groups_of(d) == seq![
                        keep_if_in(groups_of(*self)[0], excluded_deltas.list2only@, false) + excluded_deltas.list1only@,
                        keep_if_in(groups_of(*self)[1], excluded_deltas.list1only@, false) + excluded_deltas.list2only@,
                    ]
                },
                None => !((self.usage is None || self.usage == Some(TieResolutionUsage::Exclusion)) && groups_of(*self).len() == 2
                    && (forall|i: int| 0 <= i < excluded_deltas.list1only@.len() ==> groups_of(*self)[1].contains(#[trigger] excluded_deltas.list1only@[i]))
                    && (forall|i: int| 0 <= i < excluded_deltas.list2only@.len() ==> groups_of(*self)[0].contains(#[trigger] excluded_deltas.list2only@[i]))),
            },
    {
        let usage_ok = match self.usage {
            None => true,
            Some(TieResolutionUsage::Exclusion) => true,
            _ => false,
        };
        if !usage_ok {
            return None;
        }
        match self.extract_disfavoured_and_favoured() {
            None => None,
            Some((disfavoured, favoured)) => {
                let list1only = &excluded_deltas.list1only;
                let list2only = &excluded_deltas.list2only;
                for i in 0..list1only.len()
                    invariant
                        forall|j: int| 0 <= j < i ==> favoured@.contains(#[trigger] list1only@[j]),
                {
                    if !contains_candidate(favoured.as_slice(), list1only[i]) {
                        assert(!groups_of(*self)[1].contains(excluded_deltas.list1only@[i as int]));
                        return None;
                    }
                }
                for i in 0..list2only.len()
                    invariant
                        forall|j: int| 0 <= j < i ==> disfavoured@.contains(#[trigger] list2only@[j]),
                {
                    if !contains_candidate(disfavoured.as_slice(), list2only[i]) {
                        assert(!groups_of(*self)[0].contains(excluded_deltas.list2only@[i as int]));
                        return None;
                    }
                }
                let mut new_favoured = filter_by_membership(favoured.as_slice(), list1only.as_slice(), false);
                let mut extra_favoured = list2only.clone();
                new_favoured.append(&mut extra_favoured);
                let mut new_disfavoured = filter_by_membership(disfavoured.as_slice(), list2only.as_slice(), false);
                let mut extra_disfavoured = list1only.clone();
                new_disfavoured.append(&mut extra_disfavoured);
                let mut increasing_favour: Vec<Vec<CandidateIndex>> = Vec::new();
                increasing_favour.push(new_disfavoured);
                increasing_favour.push(new_favoured);
                let res = TieResolutionExplicitDecision { increasing_favour, usage: self.usage };
                assert(groups_of(res) =~= seq![
                    keep_if_in(groups_of(*self)[0], excluded_deltas.list2only@, false) + excluded_deltas.list1only@,
                    keep_if_in(groups_of(*self)[1], excluded_deltas.list1only@, false) + excluded_deltas.list2only@,
                ]);
                Some(res)
            },
        }
    }

    /// Whether the groups separate candidates as finely as the granularity needs, and no finer.
    #[verifier::loop_isolation(false)]
    pub fn divides_as(&self, granularity: TieResolutionGranularityNeeded) -> (res: bool)
        ensures
            res == division_matches(groups_of(*self), granularity),
    {
        match granularity {
            TieResolutionGranularityNeeded::Total => {
                for i in 0..self.increasing_favour.len()
                    invariant
                        forall|j: int| 0 <= j < i ==> (#[trigger] groups_of(*self)[j]).len() == 1,
                {
                    assert(groups_of(*self)[i as int] == self.increasing_favour@[i as int]@);
                    if self.increasing_favour[i].len() != 1 {
                        assert(groups_of(*self)[i as int].len() != 1);
                        return false;
                    }
                }
                true
            },
            TieResolutionGranularityNeeded::LowestSeparated(num_low) => {
                self.increasing_favour.len() == 2 && self.increasing_favour[0].len() == num_low
            },
        }
    }

    /// The total number of candidates mentioned.
    pub fn num_candidates_mentioned(&self) -> (res: usize)
        requires
            concat_all(groups_of(*self)).len() <= usize::MAX,
        ensures
            res == concat_all(groups_of(*self)).len(),
    {
        let ghost gs = groups_of(*self);
        let mut total: usize = 0;
        for i in 0..self.increasing_favour.len()
            invariant
                gs == groups_of(*self),
                gs.len() == self.increasing_favour@.len(),
                concat_all(gs).len() <= usize::MAX,
                total == concat_all(gs.take(i as int)).len(),
        {
            proof {
                lemma_concat_all_push(gs.take(i as int), gs[i as int]);
                assert(gs.take(i + 1) == gs.take(i as int).push(gs[i as int]));
                lemma_concat_all_prefix(gs, i + 1);
            }
            total = total + self.increasing_favour[i].len();
        }
        assert(gs.take(gs.len() as int) == gs);
        total
    }

    /// True iff the decision mentions exactly the given candidates (and no others).
    pub fn mentions_exactly_these_candidates(&self, candidates: &[CandidateIndex]) -> (res: bool)
        ensures
            res == (candidates@.len() == concat_all(groups_of(*self)).len() && forall|i: int|
                0 <= i < candidates@.len() ==> concat_all(groups_of(*self)).contains(#[trigger] candidates@[i])),
    {
        let all = self.all_mentioned();
        if candidates.len() != all.len() {
            return false;
        }
        for i in 0..candidates.len()
            invariant
                all@ == concat_all(groups_of(*self)),
                forall|j: int| 0 <= j < i ==> all@.contains(#[trigger] candidates@[j]),
        {
            if !contains_candidate(all.as_slice(), candidates[i]) {
                return false;
            }
        }
        true
    }

    /// All candidates mentioned, least favoured first.
    pub fn all_mentioned(&self) -> (res: Vec<CandidateIndex>)
        ensures
            res@ == concat_all(groups_of(*self)),
    {
        let ghost gs = groups_of(*self);
        let mut res: Vec<CandidateIndex> = Vec::new();
        for i in 0..self.increasing_favour.len()
            invariant
                gs == groups_of(*self),
                gs.len() == self.increasing_favour@.len(),
                res@ == concat_all(gs.take(i as int)),
        {
            proof {
                lemma_concat_all_push(gs.take(i as int), gs[i as int]);
                assert(gs.take(i + 1) == gs.take(i as int).push(gs[i as int]));
            }
            let group = &self.increasing_favour[i];
            for j in 0..group.len()
                invariant
                    res@ == concat_all(gs.take(i as int)) + group@.take(j as int),
            {
                res.push(group[j]);
                assert(group@.take(j + 1) == group@.take(j as int).push(group@[j as int]));
            }
            assert(group@.take(group@.len() as int) == group@);
        }
        assert(gs.take(gs.len() as int) == gs);
        res
    }
}

proof fn lemma_concat_all_prefix(gs: Seq<Seq<CandidateIndex>>, i: int)
    requires
        0 <= i <= gs.len(),
    ensures
        concat_all(gs.take(i)).len() <= concat_all(gs).len(),
    decreases gs.len() - i,
{
    if i < gs.len() {
        lemma_concat_all_prefix(gs, i + 1);
        lemma_concat_all_push(gs.take(i), gs[i]);
        assert(gs.take(i + 1) == gs.take(i).push(gs[i]));
    } else {
        assert(gs.take(i) == gs);
    }
}

} // verus!
