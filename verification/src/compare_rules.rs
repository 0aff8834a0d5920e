//! Comparing the result of a count with the results under alternative rules: the same rules but
//! for when the higher of the last two candidates standing is elected to the last vacancy.

use vstd::prelude::*;
use std::marker::PhantomData;
use crate::ballot_metadata::CandidateIndex;
use crate::ballot_pile::{total_papers, votes_going_to, BallotPaperCount, PartiallyDistributedVote};
use crate::compare_transcripts::{compare_transcripts, transcripts_compared, DifferenceBetweenTranscripts};
use crate::distribution_of_preferences_transcript::{ReasonForCount, Transcript};
use crate::election_data::ElectionData;
use crate::preference_distribution::{
    distribute_preferences, finished_distribution, initially_continuing, PreferenceDistributionRules,
    PreferenceDistributor, WhenToDoElectCandidateClauseChecking,
};
use crate::tally::TallyValue;
use crate::tie_resolution::{ec_wf, has_repeats, MethodOfTieResolution, TieResolutionsMadeByEC};
use crate::transfer_value::TransferValue;

verus! {

/// Which rules are being compared.
#[derive(Clone, Debug)]
pub struct RuleComparisonDefinition {
    pub rule1: String,
    pub rule2: String,
}

/// The rules `R`, but electing the higher of the last two candidates standing as soon as who is
/// to be excluded is known, before any papers are transferred.
pub struct EarliestOneOfTwo<R> {
    pub rules: PhantomData<R>,
}

/// The rules `R`, but electing the higher of the last two candidates standing only once there is
/// no undistributed surplus and no exclusion going on.
pub struct LatestOneOfTwo<R> {
    pub rules: PhantomData<R>,
}

impl<R: PreferenceDistributionRules> PreferenceDistributionRules for EarliestOneOfTwo<R> {
    type Tally = R::Tally;
    type SplitByNumber = R::SplitByNumber;

    fn make_transfer_value(surplus: Self::Tally, ballots: BallotPaperCount) -> (res: TransferValue) {
        R::make_transfer_value(surplus, ballots)
    }

    fn use_transfer_value(transfer_value: &TransferValue, ballots: BallotPaperCount) -> (res: Self::Tally) {
        R::use_transfer_value(transfer_value, ballots)
    }

    fn resolve_ties_elected_one_of_last_two() -> MethodOfTieResolution {
        R::resolve_ties_elected_one_of_last_two()
    }

    fn resolve_ties_elected_by_quota() -> MethodOfTieResolution {
        R::resolve_ties_elected_by_quota()
    }

    fn resolve_ties_elected_all_remaining() -> MethodOfTieResolution {
        R::resolve_ties_elected_all_remaining()
    }

    fn resolve_ties_choose_lowest_candidate_for_exclusion() -> MethodOfTieResolution {
        R::resolve_ties_choose_lowest_candidate_for_exclusion()
    }

    fn finish_all_counts_in_elimination_when_all_elected() -> bool {
        R::finish_all_counts_in_elimination_when_all_elected()
    }

    fn finish_all_surplus_distributions_when_all_elected() -> bool {
        R::finish_all_surplus_distributions_when_all_elected()
    }

    fn when_to_check_if_just_two_standing_for_shortcut_election() -> WhenToDoElectCandidateClauseChecking {
        WhenToDoElectCandidateClauseChecking::AfterDeterminingWhoToExcludeButBeforeTransferringAnyPapers
    }

    fn when_to_check_if_all_remaining_should_get_elected() -> WhenToDoElectCandidateClauseChecking {
        R::when_to_check_if_all_remaining_should_get_elected()
    }

    fn should_eliminate_multiple_candidates_federal_rule_13a() -> (res: bool) {
        R::should_eliminate_multiple_candidates_federal_rule_13a()
    }

    fn name() -> String {
        let mut s = R::name();
        crate::text::append_str(&mut s, "_Earliest1of2");
        s
    }
}

impl<R: PreferenceDistributionRules> PreferenceDistributionRules for LatestOneOfTwo<R> {
    type Tally = R::Tally;
    type SplitByNumber = R::SplitByNumber;

    fn make_transfer_value(surplus: Self::Tally, ballots: BallotPaperCount) -> (res: TransferValue) {
        R::make_transfer_value(surplus, ballots)
    }

    fn use_transfer_value(transfer_value: &TransferValue, ballots: BallotPaperCount) -> (res: Self::Tally) {
        R::use_transfer_value(transfer_value, ballots)
    }

    fn resolve_ties_elected_one_of_last_two() -> MethodOfTieResolution {
        R::resolve_ties_elected_one_of_last_two()
    }

    fn resolve_ties_elected_by_quota() -> MethodOfTieResolution {
        R::resolve_ties_elected_by_quota()
    }

    fn resolve_ties_elected_all_remaining() -> MethodOfTieResolution {
        R::resolve_ties_elected_all_remaining()
    }

    fn resolve_ties_choose_lowest_candidate_for_exclusion() -> MethodOfTieResolution {
        R::resolve_ties_choose_lowest_candidate_for_exclusion()
    }

    fn finish_all_counts_in_elimination_when_all_elected() -> bool {
        R::finish_all_counts_in_elimination_when_all_elected()
    }

    fn finish_all_surplus_distributions_when_all_elected() -> bool {
        R::finish_all_surplus_distributions_when_all_elected()
    }

    fn when_to_check_if_just_two_standing_for_shortcut_election() -> WhenToDoElectCandidateClauseChecking {
        WhenToDoElectCandidateClauseChecking::AfterCheckingQuotaIfNoUndistributedSurplusExistsAndExclusionNotOngoing
    }

    fn when_to_check_if_all_remaining_should_get_elected() -> WhenToDoElectCandidateClauseChecking {
        R::when_to_check_if_all_remaining_should_get_elected()
    }

    fn should_eliminate_multiple_candidates_federal_rule_13a() -> (res: bool) {
        R::should_eliminate_multiple_candidates_federal_rule_13a()
    }

    fn name() -> String {
        let mut s = R::name();
        crate::text::append_str(&mut s, "_Latest1of2");
        s
    }
}

/// `t` is what a count under the rules `A` gives: its first count holds the first preferences
/// of the candidates continuing from the start, and it ended with the vacancies filled or no
/// candidate left to elect and no surplus left to distribute.
pub open spec fn counted_under<'a, A: PreferenceDistributionRules>(
    t: Transcript<A::Tally>,
    data: &'a ElectionData,
    votes: Seq<PartiallyDistributedVote<'a>>,
    candidates_to_be_elected: usize,
    excluded: Seq<CandidateIndex>,
) -> bool {
    let n = data.metadata.candidates@.len();
    &&& t.counts@.len() > 0
    &&& !has_repeats(t.elected@)
    &&& t.counts@[0].reason == ReasonForCount::FirstPreferenceCount
    &&& forall|c: int|
        0 <= c < n ==> (#[trigger] t.counts@[0].status.tallies.candidate@[c]).value() == total_papers(
            votes_going_to(votes, initially_continuing(n, excluded), c),
        ) * A::Tally::unit()
    &&& exists|w: PreferenceDistributor<'a, A>|
        #[trigger] finished_distribution(w, t) && w.candidates_to_be_elected == candidates_to_be_elected
}

/// `d` is how `transcript` differs from the result of a count under the rules `R` electing the
/// higher of the last two standing as early as possible, whose name is `def.rule2`; `def.rule1`
/// is the name of the rules of `transcript`.
pub open spec fn compared_with_earliest<'a, R: PreferenceDistributionRules>(
    transcript: Transcript<R::Tally>,
    def: RuleComparisonDefinition,
    d: DifferenceBetweenTranscripts,
    data: &'a ElectionData,
    votes: Seq<PartiallyDistributedVote<'a>>,
    candidates_to_be_elected: usize,
    excluded: Seq<CandidateIndex>,
) -> bool {
    exists|t: Transcript<R::Tally>|
        #[trigger] transcripts_compared(transcript, t, d) && counted_under::<EarliestOneOfTwo<R>>(
            t,
            data,
            votes,
            candidates_to_be_elected,
            excluded,
        ) && def.rule2@ == t.rules@ && def.rule1@ == transcript.rules@
}

/// `d` is how `transcript` differs from the result of a count under the rules `R` electing the
/// higher of the last two standing as late as possible, whose name is `def.rule2`; `def.rule1`
/// is the name of the rules of `transcript`.
pub open spec fn compared_with_latest<'a, R: PreferenceDistributionRules>(
    transcript: Transcript<R::Tally>,
    def: RuleComparisonDefinition,
    d: DifferenceBetweenTranscripts,
    data: &'a ElectionData,
    votes: Seq<PartiallyDistributedVote<'a>>,
    candidates_to_be_elected: usize,
    excluded: Seq<CandidateIndex>,
) -> bool {
    exists|t: Transcript<R::Tally>|
        #[trigger] transcripts_compared(transcript, t, d) && counted_under::<LatestOneOfTwo<R>>(
            t,
            data,
            votes,
            candidates_to_be_elected,
            excluded,
        ) && def.rule2@ == t.rules@ && def.rule1@ == transcript.rules@
}

/// Given the rules' setting `w` for when to elect the higher of the last two standing: the
/// comparisons are, in order, with the earliest setting if `w` is not it, and with the latest
/// setting if `w` is not it, and nothing else.
pub open spec fn alternatives_compared<'a, R: PreferenceDistributionRules>(
    w: WhenToDoElectCandidateClauseChecking,
    transcript: Transcript<R::Tally>,
    defs: Seq<RuleComparisonDefinition>,
    diffs: Seq<DifferenceBetweenTranscripts>,
    data: &'a ElectionData,
    votes: Seq<PartiallyDistributedVote<'a>>,
    candidates_to_be_elected: usize,
    excluded: Seq<CandidateIndex>,
) -> bool {
    let e = w != WhenToDoElectCandidateClauseChecking::AfterDeterminingWhoToExcludeButBeforeTransferringAnyPapers;
    let l = w != WhenToDoElectCandidateClauseChecking::AfterCheckingQuotaIfNoUndistributedSurplusExistsAndExclusionNotOngoing;
    let first_late = if e {
        1int
    } else {
        0int
    };
    &&& defs.len() == diffs.len()
    &&& diffs.len() == first_late + if l {
        1int
    } else {
        0int
    }
    &&& e ==> compared_with_earliest::<R>(transcript, defs[0], diffs[0], data, votes, candidates_to_be_elected, excluded)
    &&& l ==> compared_with_latest::<R>(
        transcript,
        defs[first_late],
        diffs[first_late],
        data,
        votes,
        candidates_to_be_elected,
        excluded,
    )
}

/// Count the votes again under each of the two alternative rules for electing the higher of the
/// last two candidates standing that differs from what the rules `R` do, and give how each
/// result differs from `transcript` (the result under `R`), with which rules were compared.
pub fn alternate_rule_differences<'a, R: PreferenceDistributionRules>(
    transcript: &Transcript<R::Tally>,
    data: &'a ElectionData,
    votes: &'a Vec<PartiallyDistributedVote<'a>>,
    candidates_to_be_elected: usize,
    excluded_candidates: &[CandidateIndex],
    ec_resolutions: &'a TieResolutionsMadeByEC,
) -> (res: (Vec<RuleComparisonDefinition>, Vec<DifferenceBetweenTranscripts>))
    requires
        total_papers(votes@) < usize::MAX,
        candidates_to_be_elected < usize::MAX,
        (total_papers(votes@) + 1) * R::Tally::unit() <= R::Tally::max_value(),
        ec_wf(ec_resolutions.tie_resolutions@),
    ensures
        exists|w: WhenToDoElectCandidateClauseChecking|
            call_ensures(R::when_to_check_if_just_two_standing_for_shortcut_election, (), w) && #[trigger] alternatives_compared::<R>(
                w,
                *transcript,
                res.0@,
                res.1@,
                data,
                votes@,
                candidates_to_be_elected,
                excluded_candidates@,
            ),
{
    let setting = R::when_to_check_if_just_two_standing_for_shortcut_election;
    let w = setting();
    assert(call_ensures(setting, (), w));
    assert(call_ensures(R::when_to_check_if_just_two_standing_for_shortcut_election, (), w));
    let mut comparisons: Vec<RuleComparisonDefinition> = Vec::new();
    let mut results: Vec<DifferenceBetweenTranscripts> = Vec::new();
    if w != WhenToDoElectCandidateClauseChecking::AfterDeterminingWhoToExcludeButBeforeTransferringAnyPapers {
        let alt = distribute_preferences::<EarliestOneOfTwo<R>>(
            data,
            votes,
            candidates_to_be_elected,
            excluded_candidates,
            ec_resolutions,
        );
        let diff = compare_transcripts(transcript, &alt);
        comparisons.push(RuleComparisonDefinition { rule1: transcript.rules.clone(), rule2: alt.rules.clone() });
        results.push(diff);
        proof {
            assert(counted_under::<EarliestOneOfTwo<R>>(alt, data, votes@, candidates_to_be_elected, excluded_candidates@));
            assert(transcripts_compared(*transcript, alt, results@[0]));
            assert(comparisons@[0].rule2@ == alt.rules@);
            assert(compared_with_earliest::<R>(
                *transcript,
                comparisons@[0],
                results@[0],
                data,
                votes@,
                candidates_to_be_elected,
                excluded_candidates@,
            ));
        }
    }
    if w != WhenToDoElectCandidateClauseChecking::AfterCheckingQuotaIfNoUndistributedSurplusExistsAndExclusionNotOngoing {
        let alt = distribute_preferences::<LatestOneOfTwo<R>>(
            data,
            votes,
            candidates_to_be_elected,
            excluded_candidates,
            ec_resolutions,
        );
        let diff = compare_transcripts(transcript, &alt);
        let ghost k = results@.len() as int;
        comparisons.push(RuleComparisonDefinition { rule1: transcript.rules.clone(), rule2: alt.rules.clone() });
        results.push(diff);
        proof {
            assert(counted_under::<LatestOneOfTwo<R>>(alt, data, votes@, candidates_to_be_elected, excluded_candidates@));
            assert(transcripts_compared(*transcript, alt, results@[k]));
            assert(comparisons@[k].rule2@ == alt.rules@);
            assert(compared_with_latest::<R>(
                *transcript,
                comparisons@[k],
                results@[k],
                data,
                votes@,
                candidates_to_be_elected,
                excluded_candidates@,
            ));
        }
    }
    let ghost res_defs = comparisons@;
    let ghost res_diffs = results@;
    proof {
        assert(alternatives_compared::<R>(
            w,
            *transcript,
            comparisons@,
            results@,
            data,
            votes@,
            candidates_to_be_elected,
            excluded_candidates@,
        ));
    }
    let res = (comparisons, results);
    assert(res.0@ == res_defs && res.1@ == res_diffs);
    res
}

} // verus!
