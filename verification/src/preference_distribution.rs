//! The real STV algorithm: a distribution of preferences, parameterized by the rules that
//! resolve the many ambiguities in the conceptual description of STV.

use vstd::prelude::*;
use std::collections::HashSet;
use crate::ballot_metadata::{CandidateIndex, NumberOfCandidates};
use crate::ballot_pile::{
    current_candidate, first_continuing_from, lemma_first_continuing_from, next_spec, exhausted_papers, lemma_distribution_bounded, lemma_distribution_conserves_papers, papers_going_to_all, votes_going_to,
    all_votes_in, atl_papers_in, find_pile, lemma_atl_papers_bounded, lemma_find_pile_in_range, lemma_papers_in_remove,
    lemma_papers_in_update, PileProvenance, ProvenanceKey, BallotPaperCount, DistributedVotes, HowSplitByCountNumber, PartiallyDistributedVote, papers_in,
    piles_wf, reachable_below, total_papers, VotesWithMultipleTransferValues, VotesWithSameTransferValue,
};
use crate::distribution_of_preferences_transcript::{
    CandidateElected, CountIndex, ElectionReason, EndCountStatus, PerCandidate, PortionOfReasonBeingDoneThisCount,
    QuotaInfo, ReasonForCount, SingleCount, Transcript, TransferValueCreation,
};
use crate::election_data::ElectionData;
use crate::random_util::Randomness;
use crate::signed_version::{signed_value, SignedVersion};
use crate::tally::{TallyValue, plus_capped, minus_floored, capped_sum};
use crate::tie_resolution::{
    ec_wf, has_repeats, without, MethodOfTieResolution, TieResolutionExplicitDecision, TieResolutionGranularityNeeded,
    TieResolutionsMadeByEC, TieResolutionUsage,
};
use crate::transfer_value::{less_value, same_value, TransferValue};
use crate::countback::{all_different_pred, latest_count, ranges_view, ranges_within, tallies_cover};
use crate::util::{CollectAll, DetectUnique, detect_after, distinct, increasing_keys, indices_of, keep_if_in, sort_by_key, sorted_by_key};

verus! {

/// When to check whether the remaining candidates should all be elected, e.g. when there are
/// exactly as many continuing candidates as vacancies, or two candidates left and one vacancy.
#[derive(Copy, Clone, Debug, Eq, PartialEq, Structural)]
pub enum WhenToDoElectCandidateClauseChecking {
    /// Don't do this type of check
    Never,
    /// Check quota, and apply to remaining candidates.
    AfterCheckingQuota,
    /// If there is no undistributed surplus, and there is not an ongoing elimination with more papers to distribute.
    AfterCheckingQuotaIfNoUndistributedSurplusExistsAndExclusionNotOngoing,
    /// If there is no undistributed surplus.
    AfterCheckingQuotaIfNoUndistributedSurplusExists,
    /// If there is not an ongoing elimination with more papers to distribute.
    AfterCheckingQuotaIfExclusionNotOngoing,
    /// If the distribution of papers should be interrupted by this.
    AfterDeterminingWhoToExcludeButBeforeTransferringAnyPapers,
}

} // verus!

verus! {

broadcast use vstd::std_specs::hash::group_hash_axioms;

/// The choices left open by the conceptual description of STV, made by the legislation of a
/// particular jurisdiction (or by a particular reading of it).
pub trait PreferenceDistributionRules {
    type Tally: TallyValue;
    type SplitByNumber: HowSplitByCountNumber;

    /// The transfer value for a surplus spread over some ballot papers.
    fn make_transfer_value(surplus: Self::Tally, ballots: BallotPaperCount) -> (res: TransferValue)
        requires
            ballots.0 > 0,
        ensures
            res.wf(),
    ;

    /// What some ballot papers are worth at a transfer value.
    fn use_transfer_value(transfer_value: &TransferValue, ballots: BallotPaperCount) -> (res: Self::Tally)
        requires
            transfer_value.wf(),
    ;

    /// How to resolve a tie between the last two candidates standing.
    fn resolve_ties_elected_one_of_last_two() -> MethodOfTieResolution;

    /// How to resolve a tie between candidates elected by reaching the quota.
    fn resolve_ties_elected_by_quota() -> MethodOfTieResolution;

    /// How to resolve a tie between the candidates elected because as many remain as vacancies.
    fn resolve_ties_elected_all_remaining() -> MethodOfTieResolution;

    /// How to resolve a tie for the lowest candidate, to be excluded. It is assumed that surplus
    /// distribution is done in the same order as election.
    fn resolve_ties_choose_lowest_candidate_for_exclusion() -> MethodOfTieResolution;

    /// An elimination may involve multiple steps. If all vacancies are filled but not all steps
    /// are finished, do you finish all the counts, even though it cannot change the result?
    fn finish_all_counts_in_elimination_when_all_elected() -> bool;

    /// If all vacancies are filled but not all surplus distributions are done, do you finish the
    /// surplus distributions, even though it cannot change the result?
    fn finish_all_surplus_distributions_when_all_elected() -> bool;

    /// When to elect the higher of the last two candidates standing for the last vacancy.
    fn when_to_check_if_just_two_standing_for_shortcut_election() -> WhenToDoElectCandidateClauseChecking;

    /// When to elect all the continuing candidates, when there are as many as vacancies.
    fn when_to_check_if_all_remaining_should_get_elected() -> WhenToDoElectCandidateClauseChecking;

    /// Whether the Commonwealth Electoral Act 1918, Section 273, subsection 13A multiple
    /// elimination should be used. Defaults to false.
    fn should_eliminate_multiple_candidates_federal_rule_13a() -> (res: bool)
        default_ensures
            !res,
    {
        false
    }

    /// The name of these rules, recorded in the transcripts made with them.
    fn name() -> String;
}

/// What has happened so far in the count being done.
pub struct PendingTranscript<Tally> {
    pub elected: Vec<CandidateElected>,
    pub not_continuing: Vec<CandidateIndex>,
    pub created_transfer_value: Option<TransferValueCreation<Tally>>,
    pub decisions: Vec<TieResolutionExplicitDecision>,
}

/// The elected candidates whose surpluses are still to be distributed, first to be done first.
/// For the proofs, it also keeps every candidate ever queued, those whose surpluses have been
/// distributed, in order, and the one taken off the queue to be distributed now, if any.
pub struct SurplusQueue {
    pub pending: Vec<CandidateIndex>,
    pub queued: Ghost<Seq<CandidateIndex>>,
    pub distributed: Ghost<Seq<CandidateIndex>>,
    pub in_hand: Ghost<Option<CandidateIndex>>,
}

impl View for SurplusQueue {
    type V = Seq<CandidateIndex>;

    open spec fn view(&self) -> Seq<CandidateIndex> {
        self.pending@
    }
}

/// The candidate in hand, as a list of none or one.
pub open spec fn in_hand_seq(o: Option<CandidateIndex>) -> Seq<CandidateIndex> {
    match o {
        Some(c) => seq![c],
        None => Seq::empty(),
    }
}

impl SurplusQueue {
    /// Every candidate ever queued is distributed, in hand or still waiting, in that order.
    pub open spec fn wf(&self) -> bool {
        self.queued@ == self.distributed@ + in_hand_seq(self.in_hand@) + self.pending@
    }

    /// Nothing queued yet.
    pub fn new() -> (res: Self)
        ensures
            res.wf(),
            res@.len() == 0,
            res.queued@.len() == 0,
            res.distributed@.len() == 0,
            res.in_hand@ is None,
    {
        SurplusQueue { pending: Vec::new(), queued: Ghost(Seq::empty()), distributed: Ghost(Seq::empty()), in_hand: Ghost(None) }
    }

    /// The number still waiting.
    pub fn len(&self) -> (res: usize)
        ensures
            res == self@.len(),
    {
        self.pending.len()
    }

    /// Queue a candidate.
    pub fn push(&mut self, c: CandidateIndex)
        requires
            old(self).wf(),
        ensures
            final(self).wf(),
            final(self)@ == old(self)@.push(c),
            final(self).queued@ == old(self).queued@.push(c),
            final(self).distributed == old(self).distributed,
            final(self).in_hand == old(self).in_hand,
    {
        self.pending.push(c);
        self.queued = Ghost(self.queued@.push(c));
        assert(self.queued@ =~= self.distributed@ + in_hand_seq(self.in_hand@) + self.pending@);
    }

    /// Take the first candidate off the queue, to be distributed now.
    pub fn take_first(&mut self) -> (res: CandidateIndex)
        requires
            old(self).wf(),
            old(self)@.len() > 0,
            old(self).in_hand@ is None,
        ensures
            final(self).wf(),
            res == old(self)@[0],
            final(self)@ == old(self)@.drop_first(),
            final(self).in_hand@ == Some(res),
            final(self).distributed == old(self).distributed,
            final(self).queued == old(self).queued,
    {
        let c = self.pending.remove(0);
        self.in_hand = Ghost(Some(c));
        assert(self.queued@ =~= self.distributed@ + in_hand_seq(self.in_hand@) + self.pending@);
        c
    }
}

/// There is a count that distributes the surplus of `c`.
pub open spec fn has_surplus_count<T>(counts: Seq<SingleCount<T>>, c: CandidateIndex) -> bool {
    exists|k: int| 0 <= k < counts.len() && (#[trigger] counts[k]).reason == ReasonForCount::ExcessDistribution(c)
}

/// The surpluses distributed so far have each a count in the transcript.
pub open spec fn surpluses_counted<T>(q: SurplusQueue, counts: Seq<SingleCount<T>>) -> bool {
    forall|i: int| 0 <= i < q.distributed@.len() ==> has_surplus_count(counts, #[trigger] q.distributed@[i])
}

/// The queue has the same surpluses distributed and in hand.
pub open spec fn same_surplus_progress(a: SurplusQueue, b: SurplusQueue) -> bool {
    a.distributed == b.distributed && a.in_hand == b.in_hand
}

/// Counts added at the end keep the counts of the surpluses.
proof fn lemma_surpluses_counted_extend<T>(q: SurplusQueue, a: Seq<SingleCount<T>>, b: Seq<SingleCount<T>>)
    requires
        surpluses_counted(q, a),
        a.is_prefix_of(b),
    ensures
        surpluses_counted(q, b),
{
    assert forall|i: int| 0 <= i < q.distributed@.len() implies has_surplus_count(b, #[trigger] q.distributed@[i]) by {
        let k = choose|k: int| 0 <= k < a.len() && (#[trigger] a[k]).reason == ReasonForCount::ExcessDistribution(q.distributed@[i]);
        assert(a[k] == b.subrange(0, a.len() as int)[k]);
    }
}

/// The main workhorse that does a distribution of preferences.
pub struct PreferenceDistributor<'a, Rules: PreferenceDistributionRules> {
    pub data: &'a ElectionData,
    pub ec_resolutions: &'a TieResolutionsMadeByEC,
    pub original_votes: &'a Vec<PartiallyDistributedVote<'a>>,
    pub num_candidates: usize,
    pub candidates_to_be_elected: usize,
    pub quota: Rules::Tally,
    /// The tally, by candidate.
    pub tallys: Vec<Rules::Tally>,
    /// The papers that a particular candidate currently has.
    pub papers: Vec<VotesWithMultipleTransferValues<'a, Rules::SplitByNumber, Rules::Tally>>,
    /// The numbers of the continuing candidates.
    pub continuing_candidates: HashSet<usize>,
    /// Continuing candidates sorted lowest tally first, highest last.
    pub continuing_candidates_sorted_by_tally: Vec<CandidateIndex>,
    pub exhausted: BallotPaperCount,
    pub exhausted_atl: BallotPaperCount,
    pub tally_lost_to_rounding: SignedVersion<Rules::Tally>,
    pub tally_exhausted: Rules::Tally,
    pub tally_set_aside: Option<Rules::Tally>,
    pub current_count: CountIndex,
    /// Elected candidates whose surplus is still to be distributed, first to be done first.
    pub pending_surplus_distribution: SurplusQueue,
    pub elected_candidates: Vec<CandidateIndex>,
    /// Information about what is going on in this count.
    pub in_this_count: PendingTranscript<Rules::Tally>,
    pub transcript: Transcript<Rules::Tally>,
    /// Used for the ties that neither the rules nor the electoral commission's decisions resolve.
    pub randomness: Randomness,
    /// The numbers of the candidates excluded before the count started.
    pub excluded_at_start: Ghost<Set<usize>>,
}

/// Every candidate in the list is below `n`.
pub open spec fn all_below(s: Seq<CandidateIndex>, n: nat) -> bool {
    forall|i: int| 0 <= i < s.len() ==> (#[trigger] s[i]).0 < n
}

/// The papers held by all the candidates.
pub open spec fn all_papers<'a, S: HowSplitByCountNumber, T>(ps: Seq<VotesWithMultipleTransferValues<'a, S, T>>) -> nat
    decreases ps.len(),
{
    if ps.len() == 0 {
        0
    } else {
        all_papers(ps.drop_last()) + papers_in(ps.last().by_provenance@)
    }
}

/// The piles of papers each candidate holds.
pub open spec fn piles_view<'a, S: HowSplitByCountNumber, T>(
    ps: Seq<VotesWithMultipleTransferValues<'a, S, T>>,
) -> Seq<Seq<(ProvenanceKey<S::KeyToDivide>, (PileProvenance<T>, VotesWithSameTransferValue<'a>))>> {
    ps.map_values(|p: VotesWithMultipleTransferValues<'a, S, T>| p.by_provenance@)
}

/// The values of some tallies.
pub open spec fn tally_values<T: TallyValue>(ts: Seq<T>) -> Seq<nat> {
    ts.map_values(|t: T| t.value())
}

/// `a` less `b`, or zero if `b` is larger.
pub open spec fn floor_minus(a: nat, b: nat) -> nat {
    if b <= a {
        (a - b) as nat
    } else {
        0
    }
}

/// Taking the piles with the given key from each of the candidates in turn (a candidate listed
/// again has none left): the piles each candidate holds afterwards, and the piles taken.
pub open spec fn parcel_taken<'a, K, T>(
    pv: Seq<Seq<(ProvenanceKey<K>, (PileProvenance<T>, VotesWithSameTransferValue<'a>))>>,
    cands: Seq<CandidateIndex>,
    key: ProvenanceKey<K>,
) -> (Seq<Seq<(ProvenanceKey<K>, (PileProvenance<T>, VotesWithSameTransferValue<'a>))>>, Seq<(PileProvenance<T>, VotesWithSameTransferValue<'a>)>)
    decreases cands.len(),
{
    if cands.len() == 0 {
        (pv, Seq::empty())
    } else {
        let (q, found) = parcel_taken(pv, cands.drop_last(), key);
        let c = cands.last().0 as int;
        match find_pile(q[c], key.0, key.1) {
            Some(i) => (q.update(c, q[c].remove(i)), found.push(q[c][i].1)),
            None => (q, found),
        }
    }
}

/// The values of the tallies after taking the piles with the given key from each of the
/// candidates in turn, each reduced by what its pile was worth (to no less than zero).
pub open spec fn tallies_taken<'a, K, T: TallyValue>(
    tv: Seq<nat>,
    pv: Seq<Seq<(ProvenanceKey<K>, (PileProvenance<T>, VotesWithSameTransferValue<'a>))>>,
    cands: Seq<CandidateIndex>,
    key: ProvenanceKey<K>,
) -> Seq<nat>
    decreases cands.len(),
{
    if cands.len() == 0 {
        tv
    } else {
        let t = tallies_taken(tv, pv, cands.drop_last(), key);
        let q = parcel_taken(pv, cands.drop_last(), key).0;
        let c = cands.last().0 as int;
        match find_pile(q[c], key.0, key.1) {
            Some(i) => t.update(c, floor_minus(t[c], q[c][i].1.0.tally.value())),
            None => t,
        }
    }
}

/// The votes of some piles, one pile after another.
pub open spec fn votes_of_piles<'a, T>(found: Seq<(PileProvenance<T>, VotesWithSameTransferValue<'a>)>) -> Seq<PartiallyDistributedVote<'a>>
    decreases found.len(),
{
    if found.len() == 0 {
        Seq::empty()
    } else {
        votes_of_piles(found.drop_last()) + found.last().1.votes@
    }
}

/// What some piles were worth together, stopping at the largest tally.
pub open spec fn capped_total<'a, T: TallyValue>(found: Seq<(PileProvenance<T>, VotesWithSameTransferValue<'a>)>) -> nat
    decreases found.len(),
{
    if found.len() == 0 {
        0
    } else {
        capped_sum::<T>(capped_total(found.drop_last()), found.last().0.tally.value())
    }
}

/// When the transfer values of some piles were created.
pub open spec fn whens_of_piles<'a, T>(found: Seq<(PileProvenance<T>, VotesWithSameTransferValue<'a>)>) -> Seq<Option<CountIndex>> {
    found.map_values(|f: (PileProvenance<T>, VotesWithSameTransferValue<'a>)| f.0.when_tv_created)
}

/// The counts the papers of some piles were received in.
pub open spec fn counts_of_piles<'a, T>(found: Seq<(PileProvenance<T>, VotesWithSameTransferValue<'a>)>) -> Set<CountIndex>
    decreases found.len(),
{
    if found.len() == 0 {
        Set::empty()
    } else {
        counts_of_piles(found.drop_last()).union(found.last().0.counts_comes_from.all@.to_set())
    }
}

/// The reason for a count is the exclusion of a list of candidates, the first of which was
/// continuing with as low a tally as the first of the continuing candidates in order of tally;
/// when they are in order (as every count leaves them), that is the lowest tally of all.
pub open spec fn excludes_lowest<T: TallyValue>(r: ReasonForCount, sorted: Seq<CandidateIndex>, tallies: Seq<T>) -> bool {
    &&& r matches ReasonForCount::Elimination(l)
    &&& l@.len() > 0
    &&& sorted.contains(l@[0])
    &&& tallies[l@[0].0 as int].value() == tallies[sorted[0].0 as int].value()
    &&& sorted_by_key(sorted, tallies) ==> forall|i: int|
        0 <= i < sorted.len() ==> tallies[l@[0].0 as int].value() <= #[trigger] tallies[sorted[i].0 as int].value()
}

/// How a surplus was passed on: the candidate's votes, the surplus (what is above the quota),
/// the papers considered (all the candidate's), and the transfer value the rules make of the
/// surplus and those papers (one if there are none).
pub open spec fn surplus_transfer<R: PreferenceDistributionRules>(
    tvc: TransferValueCreation<R::Tally>,
    votes: R::Tally,
    quota: R::Tally,
    papers: nat,
) -> bool {
    &&& tvc.votes == votes
    &&& tvc.surplus.value() == floor_minus(votes.value(), quota.value())
    &&& tvc.ballots_considered.0 == papers
    &&& papers > 0 ==> call_ensures(R::make_transfer_value, (tvc.surplus, tvc.ballots_considered), tvc.transfer_value)
    &&& papers == 0 ==> tvc.transfer_value.numerator == 1 && tvc.transfer_value.denominator == 1
}

/// The reason for a count is the exclusion of the given candidates.
pub open spec fn eliminates(r: ReasonForCount, list: Seq<CandidateIndex>) -> bool {
    r matches ReasonForCount::Elimination(l) && l@ == list
}

/// Every count from position `from` on distributes a surplus or excludes candidates.
pub open spec fn counts_after_first<T>(counts: Seq<SingleCount<T>>, from: int) -> bool {
    forall|k: int|
        from <= k < counts.len() ==> (#[trigger] counts[k]).reason is ExcessDistribution || counts[k].reason is Elimination
}

/// Counts added after a prefix whose later counts all distribute or exclude, that themselves
/// all distribute or exclude, keep it so.
proof fn lemma_counts_after_first_extend<T>(a: Seq<SingleCount<T>>, b: Seq<SingleCount<T>>, from: int)
    requires
        0 <= from,
        a.is_prefix_of(b),
        counts_after_first(a, from),
        counts_after_first(b, a.len() as int),
    ensures
        counts_after_first(b, from),
{
    assert forall|k: int| from <= k < b.len() implies (#[trigger] b[k]).reason is ExcessDistribution || b[k].reason is Elimination by {
        if k < a.len() {
            assert(a[k] == b.subrange(0, a.len() as int)[k]);
        }
    }
}

/// A prefix of a prefix is a prefix.
proof fn lemma_prefix_of_prefix<A>(a: Seq<A>, b: Seq<A>, c: Seq<A>)
    requires
        a.is_prefix_of(b),
        b.is_prefix_of(c),
    ensures
        a.is_prefix_of(c),
{
    assert(a =~= c.subrange(0, a.len() as int)) by {
        assert forall|i: int| 0 <= i < a.len() implies a[i] == c[i] by {
            assert(a[i] == b[i]);
            assert(b[i] == c[i]);
        }
    }
}

/// The papers of two lists of candidates together.
proof fn lemma_all_papers_concat<'a, S: HowSplitByCountNumber, T>(
    a: Seq<VotesWithMultipleTransferValues<'a, S, T>>,
    b: Seq<VotesWithMultipleTransferValues<'a, S, T>>,
)
    ensures
        all_papers(a + b) == all_papers(a) + all_papers(b),
    decreases b.len(),
{
    if b.len() == 0 {
        assert(a + b == a);
    } else {
        lemma_all_papers_concat(a, b.drop_last());
        assert((a + b).drop_last() == a + b.drop_last());
    }
}

/// Changing one candidate's papers changes the total by the difference.
proof fn lemma_all_papers_update<'a, S: HowSplitByCountNumber, T>(
    ps: Seq<VotesWithMultipleTransferValues<'a, S, T>>,
    c: int,
    x: VotesWithMultipleTransferValues<'a, S, T>,
)
    requires
        0 <= c < ps.len(),
    ensures
        all_papers(ps.update(c, x)) + papers_in(ps[c].by_provenance@) == all_papers(ps) + papers_in(x.by_provenance@),
        papers_in(ps[c].by_provenance@) <= all_papers(ps),
{
    let a = ps.take(c);
    let b = ps.skip(c + 1);
    lemma_all_papers_concat(a.push(ps[c]), b);
    lemma_all_papers_concat(a.push(x), b);
    assert(a.push(ps[c]) + b == ps);
    assert(a.push(x) + b == ps.update(c, x));
    assert(a.push(ps[c]).drop_last() == a);
    assert(a.push(x).drop_last() == a);
}

/// A list with the same elements as one without repeats has no repeats.
proof fn lemma_permutation_keeps_distinct(a: Seq<CandidateIndex>, b: Seq<CandidateIndex>)
    requires
        a.to_multiset() == b.to_multiset(),
        !has_repeats(a),
    ensures
        !has_repeats(b),
{
    broadcast use vstd::seq_lib::group_to_multiset_ensures;
    assert(a.no_duplicates()) by {
        assert forall|i: int, j: int| 0 <= i < a.len() && 0 <= j < a.len() && i != j implies a[i] != a[j] by {
            if a[i] == a[j] {
                if i < j {
                    assert(has_repeats(a));
                } else {
                    assert(has_repeats(a));
                }
            }
        }
    }
    a.lemma_multiset_has_no_duplicates();
    b.lemma_multiset_has_no_duplicates_conv();
    if has_repeats(b) {
        let (i, j) = choose|i: int, j: int| 0 <= i < j < b.len() && b[i] == b[j];
        assert(b.no_duplicates());
    }
}

/// Lists with the same elements have the same set of candidate numbers and the same bounds.
proof fn lemma_permutation_keeps_indices(a: Seq<CandidateIndex>, b: Seq<CandidateIndex>, n: nat)
    requires
        a.to_multiset() == b.to_multiset(),
    ensures
        indices_of(a).to_set() == indices_of(b).to_set(),
        all_below(a, n) ==> all_below(b, n),
{
    broadcast use vstd::seq_lib::group_to_multiset_ensures;
    assert forall|x: usize| indices_of(a).to_set().contains(x) implies indices_of(b).to_set().contains(x) by {
        let i = choose|i: int| 0 <= i < indices_of(a).len() && indices_of(a)[i] == x;
        assert(a.contains(a[i]));
        assert(a.to_multiset().count(a[i]) > 0);
        assert(b.to_multiset().count(a[i]) > 0);
        assert(b.contains(a[i]));
        let j = choose|j: int| 0 <= j < b.len() && b[j] == a[i];
        assert(indices_of(b)[j] == x);
    }
    assert forall|x: usize| indices_of(b).to_set().contains(x) implies indices_of(a).to_set().contains(x) by {
        let i = choose|i: int| 0 <= i < indices_of(b).len() && indices_of(b)[i] == x;
        assert(b.contains(b[i]));
        assert(b.to_multiset().count(b[i]) > 0);
        assert(a.to_multiset().count(b[i]) > 0);
        assert(a.contains(b[i]));
        let j = choose|j: int| 0 <= j < a.len() && a[j] == b[i];
        assert(indices_of(a)[j] == x);
    }
    assert(indices_of(a).to_set() =~= indices_of(b).to_set());
    if all_below(a, n) {
        assert forall|i: int| 0 <= i < b.len() implies (#[trigger] b[i]).0 < n by {
            assert(b.contains(b[i]));
            assert(b.to_multiset().count(b[i]) > 0);
            assert(a.to_multiset().count(b[i]) > 0);
            assert(a.contains(b[i]));
        }
    }
}

impl<'a, Rules: PreferenceDistributionRules> PreferenceDistributor<'a, Rules> {
    /// What is left to do, which each count reduces: each continuing candidate will be elected
    /// or excluded, and each candidate elected with a surplus will have it distributed.
    pub open spec fn work_left(&self) -> nat {
        2 * self.continuing_candidates_sorted_by_tally@.len() + self.pending_surplus_distribution@.len()
    }

    /// The invariant of a distribution in progress.
    pub open spec fn wf(&self) -> bool {
        let n = self.num_candidates as nat;
        &&& self.tallys@.len() == n
        &&& self.papers@.len() == n
        &&& forall|c: int| 0 <= c < n ==> piles_wf(#[trigger] self.papers@[c].by_provenance@)
        &&& self.continuing_candidates@ == indices_of(self.continuing_candidates_sorted_by_tally@).to_set()
        &&& !has_repeats(self.continuing_candidates_sorted_by_tally@)
        &&& all_below(self.continuing_candidates_sorted_by_tally@, n)
        &&& all_below(self.elected_candidates@, n)
        &&& all_below(self.pending_surplus_distribution@, n)
        &&& forall|k: int|
            0 <= k < self.transcript.counts@.len() ==> (#[trigger] self.transcript.counts@[k]).status.tallies.candidate@.len()
                == n
        &&& self.current_count.0 == self.transcript.counts@.len()
        &&& total_papers(self.original_votes@) < usize::MAX
        &&& all_papers(self.papers@) + self.exhausted.0 <= total_papers(self.original_votes@)
        &&& self.candidates_to_be_elected < usize::MAX
        &&& (total_papers(self.original_votes@) + 1) * Rules::Tally::unit() <= Rules::Tally::max_value()
        &&& ec_wf(self.ec_resolutions.tie_resolutions@)
        &&& self.exhausted_atl.0 <= self.exhausted.0
        &&& self.transcript.elected@ == self.elected_candidates@
        &&& !has_repeats(self.elected_candidates@)
        &&& forall|i: int|
            0 <= i < self.elected_candidates@.len() ==> !self.continuing_candidates@.contains(
                (#[trigger] self.elected_candidates@[i]).0,
            ) && !self.excluded_at_start@.contains(self.elected_candidates@[i].0)
        &&& forall|x: usize| #[trigger] self.continuing_candidates@.contains(x) ==> !self.excluded_at_start@.contains(x)
        &&& forall|i: int|
            0 <= i < self.pending_surplus_distribution@.len() ==> !self.continuing_candidates@.contains(
                (#[trigger] self.pending_surplus_distribution@[i]).0,
            )
        &&& self.pending_surplus_distribution.wf()
        &&& surpluses_counted(self.pending_surplus_distribution, self.transcript.counts@)
    }

    /// Set up a distribution of preferences: no tallies yet, and every candidate not excluded
    /// continuing, in ballot order.
    pub fn new(
        data: &'a ElectionData,
        original_votes: &'a Vec<PartiallyDistributedVote<'a>>,
        candidates_to_be_elected: usize,
        excluded_candidates: &[CandidateIndex],
        ec_resolutions: &'a TieResolutionsMadeByEC,
    ) -> (res: Self)
        requires
            total_papers(original_votes@) < usize::MAX,
            candidates_to_be_elected < usize::MAX,
            (total_papers(original_votes@) + 1) * Rules::Tally::unit() <= Rules::Tally::max_value(),
            ec_wf(ec_resolutions.tie_resolutions@),
        ensures
            res.wf(),
            res.num_candidates == data.metadata.candidates@.len(),
            res.candidates_to_be_elected == candidates_to_be_elected,
            res.data == data,
            res.original_votes == original_votes,
            res.ec_resolutions == ec_resolutions,
            forall|c: int| 0 <= c < res.num_candidates ==> (#[trigger] res.tallys@[c]).value() == 0,
            forall|c: int| 0 <= c < res.num_candidates ==> (#[trigger] res.papers@[c]).by_provenance@.len() == 0,
            indices_of(res.continuing_candidates_sorted_by_tally@) == Seq::new(
                res.num_candidates as nat,
                |i: int| i as usize,
            ).filter(|i: usize| !excluded_candidates@.contains(CandidateIndex(i))),
            res.elected_candidates@.len() == 0,
            res.pending_surplus_distribution@.len() == 0,
            res.pending_surplus_distribution.in_hand@ is None,
            res.transcript.counts@.len() == 0,
            res.exhausted.0 == 0,
            res.exhausted_atl.0 == 0,
            res.quota.value() == 0,
            res.tally_exhausted.value() == 0,
            signed_value(res.tally_lost_to_rounding) == 0,
            res.tally_set_aside is None,
            res.current_count.0 == 0,
            res.in_this_count.elected@.len() == 0,
            res.in_this_count.not_continuing@.len() == 0,
            res.in_this_count.decisions@.len() == 0,
            res.in_this_count.created_transfer_value is None,
            res.transcript.quota is None,
            res.transcript.elected@.len() == 0,
            all_papers(res.papers@) == 0,
            forall|i: usize| #[trigger] res.excluded_at_start@.contains(i) <==> excluded_candidates@.contains(CandidateIndex(i)),
    {
        let num_candidates = data.metadata.candidates.len();
        let mut tallys: Vec<Rules::Tally> = Vec::new();
        let mut papers: Vec<VotesWithMultipleTransferValues<'a, Rules::SplitByNumber, Rules::Tally>> = Vec::new();
        let mut continuing_candidates: HashSet<usize> = HashSet::new();
        let mut continuing_candidates_sorted_by_tally: Vec<CandidateIndex> = Vec::new();
        let ghost all = Seq::new(num_candidates as nat, |i: int| i as usize);
        let ghost keep = |i: usize| !excluded_candidates@.contains(CandidateIndex(i));
        for i in 0..num_candidates
            invariant
                all == Seq::new(num_candidates as nat, |i: int| i as usize),
                keep == (|i: usize| !excluded_candidates@.contains(CandidateIndex(i))),
                tallys@.len() == i,
                papers@.len() == i,
                forall|c: int| 0 <= c < i ==> (#[trigger] tallys@[c]).value() == 0,
                forall|c: int| 0 <= c < i ==> (#[trigger] papers@[c]).by_provenance@.len() == 0,
                indices_of(continuing_candidates_sorted_by_tally@) == all.take(i as int).filter(keep),
                continuing_candidates@ == indices_of(continuing_candidates_sorted_by_tally@).to_set(),
                all_below(continuing_candidates_sorted_by_tally@, i as nat),
                !has_repeats(continuing_candidates_sorted_by_tally@),
                forall|x: usize| #[trigger] continuing_candidates@.contains(x) ==> !excluded_candidates@.contains(CandidateIndex(x)),
        {
            tallys.push(Rules::Tally::zero());
            papers.push(VotesWithMultipleTransferValues::default());
            let ghost before = continuing_candidates_sorted_by_tally@;
            assert(all.take(i + 1) =~= all.take(i as int).push(i as usize));
            proof {
                all.take(i as int).lemma_filter_push(i as usize, keep);
            }
            if !crate::util::contains_candidate(excluded_candidates, CandidateIndex(i)) {
                continuing_candidates.insert(i);
                continuing_candidates_sorted_by_tally.push(CandidateIndex(i));
                assert(indices_of(continuing_candidates_sorted_by_tally@) =~= indices_of(before).push(i));
                proof {
                    indices_of(before).lemma_push_to_set_commute(i);
                }
            } else {
                assert(!keep(i as usize));
            }
        }
        assert(all.take(num_candidates as int) =~= all);
        let res = PreferenceDistributor {
            data,
            ec_resolutions,
            original_votes,
            num_candidates,
            candidates_to_be_elected,
            quota: Rules::Tally::zero(),
            tallys,
            papers,
            continuing_candidates,
            continuing_candidates_sorted_by_tally,
            exhausted: BallotPaperCount(0),
            exhausted_atl: BallotPaperCount(0),
            tally_lost_to_rounding: SignedVersion::zero(),
            tally_exhausted: Rules::Tally::zero(),
            tally_set_aside: None,
            current_count: CountIndex(0),
            pending_surplus_distribution: SurplusQueue::new(),
            elected_candidates: Vec::new(),
            in_this_count: PendingTranscript {
                elected: Vec::new(),
                not_continuing: Vec::new(),
                created_transfer_value: None,
                decisions: Vec::new(),
            },
            transcript: Transcript { rules: Rules::name(), quota: None, counts: Vec::new(), elected: Vec::new() },
            randomness: Randomness::ReverseDonkeyVote,
            excluded_at_start: Ghost(Set::new(|i: usize| excluded_candidates@.contains(CandidateIndex(i)))),
        };
        proof {
            lemma_all_papers_zero(res.papers@);
        }
        res
    }
}

impl<'a, Rules: PreferenceDistributionRules> PreferenceDistributor<'a, Rules> {
    /// The quota: round_down(first_preferences/(1+num_to_elect))+1.
    pub fn compute_quota(&mut self, total_first_preferences: BallotPaperCount)
        requires
            old(self).wf(),
            total_first_preferences.0 <= total_papers(old(self).original_votes@),
        ensures
            final(self).wf(),
            final(self).quota.value() == (total_first_preferences.0 as int / (old(self).candidates_to_be_elected + 1) + 1)
                * Rules::Tally::unit(),
            final(self).transcript.quota == Some(
                QuotaInfo {
                    papers: total_first_preferences,
                    vacancies: NumberOfCandidates(old(self).candidates_to_be_elected),
                    quota: final(self).quota,
                },
            ),
            final(self).transcript.counts == old(self).transcript.counts,
            final(self).transcript.elected == old(self).transcript.elected,
            final(self).pending_surplus_distribution == old(self).pending_surplus_distribution,
            final(self).tallys == old(self).tallys,
            final(self).papers == old(self).papers,
            final(self).continuing_candidates_sorted_by_tally == old(self).continuing_candidates_sorted_by_tally,
            final(self).elected_candidates == old(self).elected_candidates,
            final(self).pending_surplus_distribution == old(self).pending_surplus_distribution,
            final(self).exhausted == old(self).exhausted,
            final(self).exhausted_atl == old(self).exhausted_atl,
            final(self).num_candidates == old(self).num_candidates,
            final(self).candidates_to_be_elected == old(self).candidates_to_be_elected,
            final(self).original_votes == old(self).original_votes,
            final(self).excluded_at_start == old(self).excluded_at_start,
            final(self).current_count == old(self).current_count,
            final(self).continuing_candidates@ == old(self).continuing_candidates@,
            final(self).in_this_count == old(self).in_this_count,
    {
        let whole = total_first_preferences.0 / (1 + self.candidates_to_be_elected) + 1;
        proof {
            let p = total_papers(self.original_votes@);
            let u = Rules::Tally::unit();
            Rules::Tally::lemma_unit_positive();
            assert(whole <= p + 1) by (nonlinear_arith)
                requires
                    whole == total_first_preferences.0 as int / (1 + self.candidates_to_be_elected) + 1,
                    total_first_preferences.0 <= p,
            ;
            assert(whole * u <= (p + 1) * u) by (nonlinear_arith)
                requires
                    whole <= p + 1,
                    u >= 1,
            ;
        }
        self.quota = Rules::Tally::from_whole(whole);
        self.transcript.quota = Some(
            QuotaInfo {
                papers: total_first_preferences,
                vacancies: NumberOfCandidates(self.candidates_to_be_elected),
                quota: self.quota,
            },
        );
    }

    /// The tally of a candidate.
    pub fn tally(&self, candidate: CandidateIndex) -> (res: Rules::Tally)
        requires
            candidate.0 < self.tallys@.len(),
        ensures
            res == self.tallys@[candidate.0 as int],
    {
        self.tallys[candidate.0]
    }

    /// The number of vacancies still to fill.
    pub fn remaining_to_elect(&self) -> (res: usize)
        ensures
            res == if self.elected_candidates@.len() <= self.candidates_to_be_elected {
                self.candidates_to_be_elected - self.elected_candidates@.len()
            } else {
                0
            },
    {
        if self.elected_candidates.len() <= self.candidates_to_be_elected {
            self.candidates_to_be_elected - self.elected_candidates.len()
        } else {
            0
        }
    }

    /// See if one should check a particular termination rule.
    pub fn should_check(&self, when: WhenToDoElectCandidateClauseChecking, reason: &ReasonForCount, reason_completed: bool) -> (res: bool)
        ensures
            res == match when {
                WhenToDoElectCandidateClauseChecking::Never => false,
                WhenToDoElectCandidateClauseChecking::AfterCheckingQuota => true,
                WhenToDoElectCandidateClauseChecking::AfterCheckingQuotaIfNoUndistributedSurplusExistsAndExclusionNotOngoing => reason_completed
                    && self.pending_surplus_distribution@.len() == 0,
                WhenToDoElectCandidateClauseChecking::AfterCheckingQuotaIfExclusionNotOngoing => reason_completed
                    || !(*reason is Elimination),
                WhenToDoElectCandidateClauseChecking::AfterDeterminingWhoToExcludeButBeforeTransferringAnyPapers => true,
                WhenToDoElectCandidateClauseChecking::AfterCheckingQuotaIfNoUndistributedSurplusExists => self.pending_surplus_distribution@.len()
                    == 0,
            },
    {
        match when {
            WhenToDoElectCandidateClauseChecking::Never => false,
            WhenToDoElectCandidateClauseChecking::AfterCheckingQuota => true,
            WhenToDoElectCandidateClauseChecking::AfterCheckingQuotaIfNoUndistributedSurplusExistsAndExclusionNotOngoing => reason_completed
                && self.pending_surplus_distribution.len() == 0,
            WhenToDoElectCandidateClauseChecking::AfterCheckingQuotaIfExclusionNotOngoing => reason_completed
                || !reason.is_elimination(),
            WhenToDoElectCandidateClauseChecking::AfterDeterminingWhoToExcludeButBeforeTransferringAnyPapers => true,
            WhenToDoElectCandidateClauseChecking::AfterCheckingQuotaIfNoUndistributedSurplusExists => self.pending_surplus_distribution.len()
                == 0,
        }
    }

    /// Sort the continuing candidates by tally, lowest first.
    pub fn resort_candidates(&mut self)
        requires
            old(self).wf(),
        ensures
            final(self).wf(),
            final(self).continuing_candidates_sorted_by_tally@.to_multiset()
                == old(self).continuing_candidates_sorted_by_tally@.to_multiset(),
            sorted_by_key(final(self).continuing_candidates_sorted_by_tally@, final(self).tallys@),
            final(self).continuing_candidates@ == old(self).continuing_candidates@,
            final(self).in_this_count.created_transfer_value == old(self).in_this_count.created_transfer_value,
            final(self).tallys == old(self).tallys,
            final(self).papers == old(self).papers,
            final(self).transcript == old(self).transcript,
            final(self).elected_candidates == old(self).elected_candidates,
            final(self).pending_surplus_distribution == old(self).pending_surplus_distribution,
            final(self).exhausted == old(self).exhausted,
            final(self).current_count == old(self).current_count,
            final(self).quota == old(self).quota,
            final(self).num_candidates == old(self).num_candidates,
            final(self).candidates_to_be_elected == old(self).candidates_to_be_elected,
            final(self).original_votes == old(self).original_votes,
            final(self).excluded_at_start == old(self).excluded_at_start,
            final(self).ec_resolutions == old(self).ec_resolutions,
            final(self).in_this_count.not_continuing == old(self).in_this_count.not_continuing,
            final(self).in_this_count.elected == old(self).in_this_count.elected,
            final(self).in_this_count.decisions == old(self).in_this_count.decisions,
    {
        let ghost before = self.continuing_candidates_sorted_by_tally@;
        sort_by_key(&mut self.continuing_candidates_sorted_by_tally, &self.tallys);
        proof {
            lemma_permutation_keeps_distinct(before, self.continuing_candidates_sorted_by_tally@);
            lemma_permutation_keeps_indices(before, self.continuing_candidates_sorted_by_tally@, self.num_candidates as nat);
        }
    }
}

/// Removing a candidate from a list keeps everything else, and keeps a list without repeats so.
proof fn lemma_without(s: Seq<CandidateIndex>, c: CandidateIndex, n: nat)
    ensures
        forall|x: CandidateIndex| #[trigger] without(s, c).contains(x) <==> s.contains(x) && x != c,
        !has_repeats(s) ==> !has_repeats(without(s, c)),
        all_below(s, n) ==> all_below(without(s, c), n),
        !has_repeats(s) ==> indices_of(without(s, c)).to_set() == indices_of(s).to_set().remove(c.0),
    decreases s.len(),
{
    if s.len() > 0 {
        let p = s.drop_last();
        lemma_without(p, c, n);
        let w = without(p, c);
        assert forall|x: CandidateIndex| s.contains(x) <==> p.contains(x) || x == s.last() by {
            if s.contains(x) {
                let k = choose|k: int| 0 <= k < s.len() && s[k] == x;
                if k < s.len() - 1 {
                    assert(p[k] == x);
                }
            }
            if p.contains(x) {
                let k = choose|k: int| 0 <= k < p.len() && p[k] == x;
                assert(s[k] == x);
            }
            if x == s.last() {
                assert(s[s.len() - 1] == x);
            }
        }
        assert(without(s, c) == if s.last() == c {
            w
        } else {
            w.push(s.last())
        });
        if s.last() != c {
            assert forall|x: CandidateIndex| w.push(s.last()).contains(x) <==> w.contains(x) || x == s.last() by {
                if w.push(s.last()).contains(x) {
                    let k = choose|k: int| 0 <= k < w.push(s.last()).len() && w.push(s.last())[k] == x;
                    if k < w.len() {
                        assert(w[k] == x);
                    }
                }
                if w.contains(x) {
                    let k = choose|k: int| 0 <= k < w.len() && w[k] == x;
                    assert(w.push(s.last())[k] == x);
                }
                if x == s.last() {
                    assert(w.push(s.last())[w.len() as int] == x);
                }
            }
        }
        assert forall|x: CandidateIndex| #[trigger] without(s, c).contains(x) <==> s.contains(x) && x != c by {
            assert(w.contains(x) <==> p.contains(x) && x != c);
            assert(s.contains(x) <==> p.contains(x) || x == s.last());
            if s.last() != c {
                assert(w.push(s.last()).contains(x) <==> w.contains(x) || x == s.last());
            }
        }
        if !has_repeats(s) {
            assert(!has_repeats(p)) by {
                if has_repeats(p) {
                    let (i, j) = choose|i: int, j: int| 0 <= i < j < p.len() && p[i] == p[j];
                    assert(s[i] == s[j]);
                }
            }
            assert(!p.contains(s.last())) by {
                if p.contains(s.last()) {
                    let k = choose|k: int| 0 <= k < p.len() && p[k] == s.last();
                    assert(s[k] == s[s.len() - 1]);
                }
            }
            if s.last() != c {
                assert(!has_repeats(w.push(s.last()))) by {
                    if has_repeats(w.push(s.last())) {
                        let (i, j) = choose|i: int, j: int| 0 <= i < j < w.push(s.last()).len() && w.push(s.last())[i]
                            == w.push(s.last())[j];
                        if j == w.len() {
                            assert(w.contains(w[i]));
                        } else {
                            assert(w[i] == w[j]);
                        }
                    }
                }
            }
            assert(indices_of(without(s, c)).to_set() =~= indices_of(s).to_set().remove(c.0)) by {
                assert forall|x: usize| indices_of(without(s, c)).to_set().contains(x) <==> indices_of(s).to_set().remove(
                    c.0,
                ).contains(x) by {
                    lemma_index_in(without(s, c), x);
                    lemma_index_in(s, x);
                }
            }
        }
        if all_below(s, n) {
            assert forall|i: int| 0 <= i < without(s, c).len() implies (#[trigger] without(s, c)[i]).0 < n by {
                assert(without(s, c).contains(without(s, c)[i]));
                let k = choose|k: int| 0 <= k < s.len() && s[k] == without(s, c)[i];
            }
        }
    } else {
        assert(indices_of(without(s, c)).to_set() =~= indices_of(s).to_set().remove(c.0));
    }
}

/// A number is among the candidate numbers of a list exactly when its candidate is in the list.
proof fn lemma_index_in(s: Seq<CandidateIndex>, x: usize)
    ensures
        indices_of(s).to_set().contains(x) <==> s.contains(CandidateIndex(x)),
{
    if indices_of(s).to_set().contains(x) {
        let k = choose|k: int| 0 <= k < indices_of(s).len() && indices_of(s)[k] == x;
        assert(s[k] == CandidateIndex(x));
    }
    if s.contains(CandidateIndex(x)) {
        let k = choose|k: int| 0 <= k < s.len() && s[k] == CandidateIndex(x);
        assert(indices_of(s)[k] == x);
        assert(indices_of(s).contains(x));
    }
}

impl<'a, Rules: PreferenceDistributionRules> PreferenceDistributor<'a, Rules> {
    /// Declare that a candidate is no longer continuing. Unless that is part of what the current
    /// count does, it is noted for the next count.
    pub fn no_longer_continuing(&mut self, candidate: CandidateIndex, used_in_current_count: bool)
        requires
            old(self).wf(),
        ensures
            final(self).wf(),
            final(self).continuing_candidates_sorted_by_tally@ == without(
                old(self).continuing_candidates_sorted_by_tally@,
                candidate,
            ),
            final(self).continuing_candidates@ == old(self).continuing_candidates@.remove(candidate.0),
            final(self).in_this_count.not_continuing@ == if used_in_current_count {
                old(self).in_this_count.not_continuing@
            } else {
                old(self).in_this_count.not_continuing@.push(candidate)
            },
            final(self).in_this_count.elected == old(self).in_this_count.elected,
            final(self).in_this_count.decisions == old(self).in_this_count.decisions,
            final(self).in_this_count.created_transfer_value == old(self).in_this_count.created_transfer_value,
            final(self).tallys == old(self).tallys,
            final(self).papers == old(self).papers,
            final(self).transcript == old(self).transcript,
            final(self).elected_candidates == old(self).elected_candidates,
            final(self).pending_surplus_distribution == old(self).pending_surplus_distribution,
            final(self).exhausted == old(self).exhausted,
            final(self).current_count == old(self).current_count,
            final(self).quota == old(self).quota,
            final(self).num_candidates == old(self).num_candidates,
            final(self).candidates_to_be_elected == old(self).candidates_to_be_elected,
            final(self).original_votes == old(self).original_votes,
            final(self).excluded_at_start == old(self).excluded_at_start,
            final(self).ec_resolutions == old(self).ec_resolutions,
    {
        if !used_in_current_count {
            self.in_this_count.not_continuing.push(candidate);
        }
        let ghost old_sorted = self.continuing_candidates_sorted_by_tally@;
        let mut kept: Vec<CandidateIndex> = Vec::new();
        for i in 0..self.continuing_candidates_sorted_by_tally.len()
            invariant
                old_sorted == self.continuing_candidates_sorted_by_tally@,
                kept@ == without(old_sorted.take(i as int), candidate),
        {
            let c = self.continuing_candidates_sorted_by_tally[i];
            assert(old_sorted.take(i + 1).drop_last() =~= old_sorted.take(i as int));
            if c != candidate {
                kept.push(c);
            }
        }
        assert(old_sorted.take(old_sorted.len() as int) =~= old_sorted);
        proof {
            lemma_without(old_sorted, candidate, self.num_candidates as nat);
        }
        self.continuing_candidates_sorted_by_tally = kept;
        self.continuing_candidates.remove(&candidate.0);
    }

    /// Declare a candidate elected, for the given reason.
    pub fn declare_elected(&mut self, who: CandidateIndex, why: ElectionReason)
        requires
            old(self).wf(),
            old(self).continuing_candidates_sorted_by_tally@.contains(who),
        ensures
            final(self).wf(),
            final(self).continuing_candidates_sorted_by_tally@ == without(
                old(self).continuing_candidates_sorted_by_tally@,
                who,
            ),
            final(self).elected_candidates@ == old(self).elected_candidates@.push(who),
            final(self).continuing_candidates@ == old(self).continuing_candidates@.remove(who.0),
            final(self).transcript.elected@ == old(self).transcript.elected@.push(who),
            final(self).in_this_count.elected@ == old(self).in_this_count.elected@.push(CandidateElected { who, why }),
            final(self).in_this_count.not_continuing@ == old(self).in_this_count.not_continuing@,
            final(self).in_this_count.decisions == old(self).in_this_count.decisions,
            final(self).in_this_count.created_transfer_value == old(self).in_this_count.created_transfer_value,
            final(self).tallys == old(self).tallys,
            final(self).papers == old(self).papers,
            final(self).transcript.counts == old(self).transcript.counts,
            final(self).transcript.quota == old(self).transcript.quota,
            final(self).pending_surplus_distribution == old(self).pending_surplus_distribution,
            final(self).exhausted == old(self).exhausted,
            final(self).current_count == old(self).current_count,
            final(self).quota == old(self).quota,
            final(self).num_candidates == old(self).num_candidates,
            final(self).candidates_to_be_elected == old(self).candidates_to_be_elected,
            final(self).original_votes == old(self).original_votes,
            final(self).excluded_at_start == old(self).excluded_at_start,
            final(self).ec_resolutions == old(self).ec_resolutions,
    {
        let ghost before = self.elected_candidates@;
        proof {
            let k = choose|k: int|
                0 <= k < self.continuing_candidates_sorted_by_tally@.len()
                    && self.continuing_candidates_sorted_by_tally@[k] == who;
            assert(indices_of(self.continuing_candidates_sorted_by_tally@)[k] == who.0);
            assert(self.continuing_candidates@.contains(who.0));
        }
        self.no_longer_continuing(who, true);
        self.in_this_count.elected.push(CandidateElected { who, why });
        self.elected_candidates.push(who);
        self.transcript.elected.push(who);
        proof {
            assert forall|i: int| 0 <= i < before.len() implies before[i] != who by {
                assert(!old(self).continuing_candidates@.contains(before[i].0));
            }
            assert(!has_repeats(self.elected_candidates@)) by {
                if has_repeats(self.elected_candidates@) {
                    let (i, j) = choose|i: int, j: int|
                        0 <= i < j < self.elected_candidates@.len() && self.elected_candidates@[i]
                            == self.elected_candidates@[j];
                    if j < before.len() {
                        assert(has_repeats(before));
                    }
                }
            }
        }
    }
}

/// The candidates from `start` to `end`.
fn copy_range(v: &Vec<CandidateIndex>, start: usize, end: usize) -> (res: Vec<CandidateIndex>)
    requires
        start <= end <= v@.len(),
    ensures
        res@ == v@.subrange(start as int, end as int),
{
    let mut res: Vec<CandidateIndex> = Vec::new();
    for k in start..end
        invariant
            start <= end <= v@.len(),
            res@ == v@.subrange(start as int, k as int),
    {
        res.push(v[k]);
        assert(v@.subrange(start as int, k + 1) =~= v@.subrange(start as int, k as int).push(v@[k as int]));
    }
    res
}

/// Overwrite the candidates from `start` with those given.
fn write_range(v: &mut Vec<CandidateIndex>, start: usize, w: &Vec<CandidateIndex>)
    requires
        start + w@.len() <= old(v)@.len(),
    ensures
        final(v)@ == old(v)@.take(start as int) + w@ + old(v)@.skip(start + w@.len()),
{
    let ghost orig = v@;
    let len = v.len();
    for k in 0..w.len()
        invariant
            len == orig.len(),
            v@.len() == orig.len(),
            start + w@.len() <= orig.len(),
            v@ == orig.take(start as int) + w@.take(k as int) + orig.skip(start + k),
    {
        v.set(start + k, w[k]);
        assert(v@ =~= orig.take(start as int) + w@.take(k + 1) + orig.skip(start + k + 1));
    }
    assert(w@.take(w@.len() as int) =~= w@);
}

/// Each position holds a candidate with the same tally in both lists.
pub open spec fn same_tallies_by_position<T: TallyValue>(a: Seq<CandidateIndex>, b: Seq<CandidateIndex>, tallies: Seq<T>) -> bool {
    a.len() == b.len() && forall|k: int| 0 <= k < a.len() ==> #[trigger] tallies[a[k].0 as int].value() == tallies[b[k].0 as int].value()
}

/// Every candidate in the list has the tally value `v`.
pub open spec fn all_with_value<T: TallyValue>(s: Seq<CandidateIndex>, tallies: Seq<T>, v: nat) -> bool {
    forall|k: int| 0 <= k < s.len() ==> #[trigger] tallies[s[k].0 as int].value() == v
}

/// Rearranging candidates who all have the same tally keeps them so.
proof fn lemma_permutation_keeps_value<T: TallyValue>(a: Seq<CandidateIndex>, b: Seq<CandidateIndex>, tallies: Seq<T>, v: nat)
    requires
        a.to_multiset() == b.to_multiset(),
        all_with_value(a, tallies, v),
    ensures
        all_with_value(b, tallies, v),
{
    broadcast use vstd::seq_lib::group_to_multiset_ensures;
    assert forall|k: int| 0 <= k < b.len() implies #[trigger] tallies[b[k].0 as int].value() == v by {
        assert(b.contains(b[k]));
        assert(b.to_multiset().count(b[k]) > 0);
        assert(a.to_multiset().count(b[k]) > 0);
        assert(a.contains(b[k]));
        let j = choose|j: int| 0 <= j < a.len() && a[j] == b[k];
    }
}

/// Replacing a stretch of a list by a rearrangement of it keeps the same members.
proof fn lemma_replace_with_permutation(a: Seq<CandidateIndex>, start: int, w: Seq<CandidateIndex>)
    requires
        0 <= start,
        start + w.len() <= a.len(),
        w.to_multiset() == a.subrange(start, start + w.len()).to_multiset(),
    ensures
        (a.take(start) + w + a.skip(start + w.len())).to_multiset() == a.to_multiset(),
        (a.take(start) + w + a.skip(start + w.len())).len() == a.len(),
{
    broadcast use vstd::seq_lib::lemma_multiset_commutative;
    let e = start + w.len();
    assert(a.take(start) + a.subrange(start, e) + a.skip(e) == a);
    assert((a.take(start) + w + a.skip(e)).to_multiset() == a.take(start).to_multiset().add(w.to_multiset()).add(
        a.skip(e).to_multiset(),
    ));
    assert(a.to_multiset() == a.take(start).to_multiset().add(a.subrange(start, e).to_multiset()).add(
        a.skip(e).to_multiset(),
    ));
}

/// A stretch of a list without repeats has none.
proof fn lemma_subrange_distinct(a: Seq<CandidateIndex>, s: int, e: int)
    requires
        !has_repeats(a),
        0 <= s <= e <= a.len(),
    ensures
        !has_repeats(a.subrange(s, e)),
{
    if has_repeats(a.subrange(s, e)) {
        let (i, j) = choose|i: int, j: int| 0 <= i < j < a.subrange(s, e).len() && a.subrange(s, e)[i] == a.subrange(s, e)[j];
        assert(a[s + i] == a[s + j]);
    }
}

/// The tallies of the candidates in a list, position by position.
pub open spec fn tallies_by_position<T: TallyValue>(s: Seq<CandidateIndex>, tallies: Seq<T>) -> Seq<nat> {
    Seq::new(s.len(), |k: int| tallies[s[k].0 as int].value())
}

/// A run of two or more equal values starts just before position `k`.
pub open spec fn starts_tie(v: Seq<nat>, k: int) -> bool {
    &&& 1 <= k < v.len()
    &&& v[k] == v[k - 1]
    &&& (k == 1 || v[k - 1] != v[k - 2])
}

/// The number of runs of two or more equal values that start before position `n - 1`.
pub open spec fn ties_before(v: Seq<nat>, n: int) -> nat
    decreases n,
{
    if n <= 0 {
        0
    } else {
        ties_before(v, n - 1) + if starts_tie(v, n - 1) {
            1nat
        } else {
            0nat
        }
    }
}

/// The number of ties in a list of candidates: runs of two or more neighbours with equal tallies.
pub open spec fn tie_runs<T: TallyValue>(s: Seq<CandidateIndex>, tallies: Seq<T>) -> nat {
    ties_before(tallies_by_position(s, tallies), s.len() as int)
}

/// A run of equal values from position `i` (where a run starts) to `d` holds one tie if it is
/// two or more long.
proof fn lemma_ties_in_run(v: Seq<nat>, i: int, d: int)
    requires
        0 <= i < d <= v.len(),
        i == 0 || v[i] != v[i - 1],
        forall|k: int| i <= k < d ==> #[trigger] v[k] == v[i],
    ensures
        ties_before(v, d) == ties_before(v, i) + if d > i + 1 {
            1nat
        } else {
            0nat
        },
    decreases d,
{
    if d == i + 1 {
        assert(!starts_tie(v, i));
    } else {
        lemma_ties_in_run(v, i, d - 1);
        if d - 1 > i + 1 {
            assert(v[d - 2] == v[i] && v[d - 3] == v[i]);
            assert(!starts_tie(v, d - 1));
        } else {
            assert(v[i + 1] == v[i]);
            assert(starts_tie(v, i + 1));
        }
    }
}

/// The state of the distribution is the same, but for the decisions noted in this count and the
/// state of the randomness.
pub open spec fn same_but_decisions<'a, R: PreferenceDistributionRules>(a: PreferenceDistributor<'a, R>, b: PreferenceDistributor<'a, R>) -> bool {
    &&& a.data == b.data
    &&& a.ec_resolutions == b.ec_resolutions
    &&& a.original_votes == b.original_votes
    &&& a.excluded_at_start == b.excluded_at_start
    &&& a.num_candidates == b.num_candidates
    &&& a.candidates_to_be_elected == b.candidates_to_be_elected
    &&& a.quota == b.quota
    &&& a.tallys == b.tallys
    &&& a.papers == b.papers
    &&& a.continuing_candidates@ == b.continuing_candidates@
    &&& a.continuing_candidates_sorted_by_tally == b.continuing_candidates_sorted_by_tally
    &&& a.exhausted == b.exhausted
    &&& a.exhausted_atl == b.exhausted_atl
    &&& a.tally_lost_to_rounding == b.tally_lost_to_rounding
    &&& a.tally_exhausted == b.tally_exhausted
    &&& a.tally_set_aside == b.tally_set_aside
    &&& a.current_count == b.current_count
    &&& a.pending_surplus_distribution == b.pending_surplus_distribution
    &&& a.elected_candidates == b.elected_candidates
    &&& a.in_this_count.elected == b.in_this_count.elected
    &&& a.in_this_count.not_continuing == b.in_this_count.not_continuing
    &&& a.in_this_count.created_transfer_value == b.in_this_count.created_transfer_value
    &&& a.transcript == b.transcript
}

/// From position `i` (at least 1), the end of the run of candidates at the front of the list
/// with the same tally as the first.
pub open spec fn lowest_run_end<T: TallyValue>(sorted: Seq<CandidateIndex>, tallies: Seq<T>, i: int) -> int
    decreases sorted.len() - i,
{
    if 1 <= i < sorted.len() && tallies[sorted[i].0 as int].value() == tallies[sorted[0].0 as int].value() {
        lowest_run_end(sorted, tallies, i + 1)
    } else {
        i
    }
}

/// The candidates at the front of the list with the same tally as the first.
pub open spec fn lowest_tied<T: TallyValue>(sorted: Seq<CandidateIndex>, tallies: Seq<T>) -> Seq<CandidateIndex> {
    sorted.take(lowest_run_end(sorted, tallies, 1))
}

/// Every candidate in the list has the same tally as the first.
pub open spec fn all_tied<T: TallyValue>(s: Seq<CandidateIndex>, tallies: Seq<T>) -> bool {
    forall|i: int| 0 <= i < s.len() ==> #[trigger] tallies[s[i].0 as int].value() == tallies[s[0].0 as int].value()
}

/// Under countback over every count, the tie among `tied` is resolved at the latest count at
/// which all their tallies differ; under countback over counts that finish an action, at the
/// latest such count that finishes an action.
pub proof fn lemma_countback_resolves_at_latest_differing<Tally: TallyValue>(
    how: MethodOfTieResolution,
    counts: Seq<SingleCount<Tally>>,
    tied: Seq<CandidateIndex>,
    k: int,
)
    requires
        all_different_countback(how) is Some,
        0 <= k < counts.len(),
        crate::countback::all_different(counts[k].status.tallies.candidate@, tied),
        all_different_countback(how) == Some(true) ==> counts[k].reason_completed,
        forall|j: int|
            k < j < counts.len() && (all_different_countback(how) == Some(false) || counts[j].reason_completed)
                ==> !crate::countback::all_different(#[trigger] counts[j].status.tallies.candidate@, tied),
    ensures
        countback_resolves_at(how, counts, tied, k),
{
    let major = all_different_countback(how)->0;
    let pred = all_different_pred::<Tally>(tied);
    crate::countback::lemma_latest_count_is_latest(counts, counts.len() as int, major, pred);
    match latest_count(counts, counts.len() as int, major, pred) {
        Some(m) => {
            if m < k {
                assert(pred(crate::countback::tallies_of(counts[k])));
            } else if m > k {
                assert(!crate::countback::all_different(counts[m].status.tallies.candidate@, tied));
            }
        },
        None => {
            assert(pred(crate::countback::tallies_of(counts[k])));
        },
    }
}

/// For a method of tie resolution by countback requiring all tallies different: whether it looks
/// only at counts that finish an action.
pub open spec fn all_different_countback(how: MethodOfTieResolution) -> Option<bool> {
    match how {
        MethodOfTieResolution::RequireHistoricalCountsToBeAllDifferent => Some(false),
        MethodOfTieResolution::RequireHistoricalCountsToBeAllDifferentOnlyConsideringCountsWhereAnActionIsFinished => Some(true),
        _ => None,
    }
}

/// The tie is resolved by a countback requiring all tallies different, at count `k`.
pub open spec fn countback_resolves_at<Tally: TallyValue>(
    how: MethodOfTieResolution,
    counts: Seq<SingleCount<Tally>>,
    tied: Seq<CandidateIndex>,
    k: int,
) -> bool {
    match all_different_countback(how) {
        Some(major) => latest_count(counts, counts.len() as int, major, all_different_pred(tied)) == Some(k),
        None => false,
    }
}

impl<'a, Rules: PreferenceDistributionRules> PreferenceDistributor<'a, Rules> {
    /// Resolve a tie among candidates with equal tallies: first by `how`, then, for whatever
    /// that leaves unresolved, by the decisions of the electoral commission (and, failing those,
    /// randomness), noting one decision in this count for each such part.
    #[verifier::loop_isolation(false)]
    fn resolve_tie(
        &mut self,
        tied: &mut Vec<CandidateIndex>,
        how: MethodOfTieResolution,
        g: TieResolutionGranularityNeeded,
        usage: TieResolutionUsage,
        valid: BallotPaperCount,
    )
        requires
            old(self).wf(),
            !has_repeats(old(tied)@),
            old(tied)@.len() >= 2,
            tallies_cover(old(self).transcript.counts@, old(tied)@),
            all_below(old(tied)@, old(self).num_candidates as nat),
            g matches TieResolutionGranularityNeeded::LowestSeparated(d) ==> 0 < d < old(tied)@.len(),
        ensures
            final(self).wf(),
            same_but_decisions(*final(self), *old(self)),
            final(tied)@.len() == old(tied)@.len(),
            final(tied)@.to_multiset() == old(tied)@.to_multiset(),
            !has_repeats(final(tied)@),
            final(self).in_this_count.decisions@.len() >= old(self).in_this_count.decisions@.len(),
            forall|k: int|
                0 <= k < old(self).in_this_count.decisions@.len() ==> #[trigger] final(self).in_this_count.decisions@[k]
                    == old(self).in_this_count.decisions@[k],
            forall|k: int|
                old(self).in_this_count.decisions@.len() <= k < final(self).in_this_count.decisions@.len() ==> (
                #[trigger] final(self).in_this_count.decisions@[k]).usage == Some(usage),
            how == MethodOfTieResolution::NoResolution ==> final(self).in_this_count.decisions@.len()
                == old(self).in_this_count.decisions@.len() + 1,
            forall|k: int|
                countback_resolves_at(how, old(self).transcript.counts@, old(tied)@, k) ==> sorted_by_key(
                    final(tied)@,
                    #[trigger] old(self).transcript.counts@[k].status.tallies.candidate@,
                ),
    {
        let ghost start = *self;
        let ghost run = tied@;
        let ghost d0 = self.in_this_count.decisions@;
        let run_len = tied.len();
        let ranges = how.resolve(
            tied,
            &self.transcript,
            g,
            NumberOfCandidates(self.num_candidates),
            NumberOfCandidates(self.candidates_to_be_elected),
            valid,
        );
        proof {
            lemma_permutation_keeps_distinct(run, tied@);
            if how == MethodOfTieResolution::NoResolution {
                assert(ranges_view(ranges@).len() == 1);
            }
            if all_different_countback(how) is Some {
                let major = all_different_countback(how)->0;
                if latest_count(start.transcript.counts@, start.transcript.counts@.len() as int, major, all_different_pred(run)) is Some {
                    assert(ranges_view(ranges@).len() == 0);
                    assert(ranges@.len() == 0);
                }
            }
        }
        let ghost after_resolve = tied@;
        for r in 0..ranges.len()
            invariant
                self.in_this_count.decisions@.len() == d0.len() + r,
                forall|k: int| 0 <= k < d0.len() ==> #[trigger] self.in_this_count.decisions@[k] == d0[k],
                forall|k: int|
                    d0.len() <= k < self.in_this_count.decisions@.len() ==> (#[trigger] self.in_this_count.decisions@[k]).usage
                        == Some(usage),
                self.wf(),
                same_but_decisions(*self, start),
                tied@.len() == run_len,
                tied@.to_multiset() == run.to_multiset(),
                !has_repeats(tied@),
                ranges_within(ranges@, run_len as int),
                ranges@.len() == 0 ==> tied@ == after_resolve,
        {
            let (s, e, rg) = ranges[r];
            let mut sub = copy_range(tied, s, e);
            let sub_len = e - s;
            let rg2 = match rg {
                TieResolutionGranularityNeeded::LowestSeparated(d) => if d <= sub_len {
                    rg
                } else {
                    TieResolutionGranularityNeeded::Total
                },
                TieResolutionGranularityNeeded::Total => TieResolutionGranularityNeeded::Total,
            };
            proof {
                lemma_subrange_distinct(tied@, s as int, e as int);
            }
            let ghost before_sub = sub@;
            let decision = self.ec_resolutions.resolve(&mut sub, rg2, usage, self.current_count, &mut self.randomness);
            self.in_this_count.decisions.push(decision);
            proof {
                assert(tied@.subrange(s as int, s + sub@.len()) == before_sub);
                lemma_replace_with_permutation(tied@, s as int, sub@);
            }
            let ghost before_tied = tied@;
            write_range(tied, s, &sub);
            proof {
                lemma_permutation_keeps_distinct(run, tied@);
            }
        }
    }

    /// See if there are any ties in the tallies of the candidates in `to_check` (which should
    /// already be sorted by tally). If there are, resolve them, first using `how`, then using the
    /// decisions of the electoral commission (and, failing those, randomness), noting each such
    /// decision in this count. Each tie is resolved to the given granularity where that can be
    /// asked of it, and totally otherwise. The candidates are reordered only within stretches of
    /// equal tallies.
    #[verifier::loop_isolation(false)]
    #[verifier::spinoff_prover]
    pub fn check_for_ties_and_resolve(
        &mut self,
        to_check: &mut Vec<CandidateIndex>,
        how: MethodOfTieResolution,
        granularity: TieResolutionGranularityNeeded,
        usage: TieResolutionUsage,
    )
        requires
            old(self).wf(),
            all_below(old(to_check)@, old(self).num_candidates as nat),
            !has_repeats(old(to_check)@),
        ensures
            final(self).wf(),
            same_but_decisions(*final(self), *old(self)),
            final(to_check)@.to_multiset() == old(to_check)@.to_multiset(),
            same_tallies_by_position(final(to_check)@, old(to_check)@, old(self).tallys@),
            !has_repeats(final(to_check)@),
            all_below(final(to_check)@, old(self).num_candidates as nat),
            final(self).in_this_count.decisions@.len() >= old(self).in_this_count.decisions@.len(),
            forall|k: int|
                0 <= k < old(self).in_this_count.decisions@.len() ==> #[trigger] final(self).in_this_count.decisions@[k]
                    == old(self).in_this_count.decisions@[k],
            forall|k: int|
                old(self).in_this_count.decisions@.len() <= k < final(self).in_this_count.decisions@.len() ==> (
                #[trigger] final(self).in_this_count.decisions@[k]).usage == Some(usage),
            how == MethodOfTieResolution::NoResolution ==> final(self).in_this_count.decisions@.len()
                == old(self).in_this_count.decisions@.len() + tie_runs(old(to_check)@, old(self).tallys@),
            tie_runs(old(to_check)@, old(self).tallys@) == 0 ==> final(to_check)@ == old(to_check)@
                && final(self).in_this_count.decisions@ == old(self).in_this_count.decisions@,
            forall|k: int|
                old(to_check)@.len() >= 2 && all_tied(old(to_check)@, old(self).tallys@) && countback_resolves_at(how, old(self).transcript.counts@, old(to_check)@, k) ==> sorted_by_key(
                    final(to_check)@,
                    #[trigger] old(self).transcript.counts@[k].status.tallies.candidate@,
                ),
    {
        let ghost orig = to_check@;
        let ghost start = *self;
        let ghost n = self.num_candidates as nat;
        let ghost v = tallies_by_position(orig, self.tallys@);
        let ghost d0 = self.in_this_count.decisions@;
        let len = to_check.len();
        let valid = match &self.transcript.quota {
            Some(q) => q.papers,
            None => BallotPaperCount(0),
        };
        let mut i: usize = 0;
        while i < len
            invariant
                self.wf(),
                same_but_decisions(*self, start),
                len == orig.len(),
                to_check@.len() == len,
                to_check@.to_multiset() == orig.to_multiset(),
                same_tallies_by_position(to_check@, orig, self.tallys@),
                !has_repeats(to_check@),
                all_below(to_check@, n),
                i <= len,
                v.len() == len,
                i == 0 || i == len || v[i as int] != v[i - 1],
                self.in_this_count.decisions@.len() >= d0.len(),
                forall|k: int| 0 <= k < d0.len() ==> #[trigger] self.in_this_count.decisions@[k] == d0[k],
                forall|k: int|
                    d0.len() <= k < self.in_this_count.decisions@.len() ==> (#[trigger] self.in_this_count.decisions@[k]).usage
                        == Some(usage),
                how == MethodOfTieResolution::NoResolution ==> self.in_this_count.decisions@.len() == d0.len() + ties_before(
                    v,
                    i as int,
                ),
                ties_before(v, i as int) == 0 ==> to_check@ == orig && self.in_this_count.decisions@ == d0,
                forall|k: int|
                    orig.len() >= 2 && all_tied(orig, start.tallys@) && countback_resolves_at(how, start.transcript.counts@, orig, k) ==> (i == 0 && to_check@ == orig) || (i == len && sorted_by_key(
                        to_check@,
                        #[trigger] start.transcript.counts@[k].status.tallies.candidate@,
                    )),
            decreases len - i,
        {
            let ti = self.tally(to_check[i]);
            let mut differs = i + 1;
            while differs < len && ti.is_same(&self.tally(to_check[differs]))
                invariant
                    i < differs <= len,
                    to_check@.len() == len,
                    all_below(to_check@, n),
                    self.tallys@.len() == n,
                    forall|k: int| i <= k < differs ==> #[trigger] self.tallys@[to_check@[k].0 as int].value() == ti.value(),
                decreases len - differs,
            {
                differs = differs + 1;
            }
            proof {
                assert forall|k: int| i <= k < differs implies #[trigger] v[k] == v[i as int] by {
                    assert(self.tallys@[to_check@[k].0 as int].value() == ti.value());
                    assert(self.tallys@[to_check@[k].0 as int].value() == self.tallys@[orig[k].0 as int].value());
                    assert(self.tallys@[to_check@[i as int].0 as int].value() == self.tallys@[orig[i as int].0 as int].value());
                }
                lemma_ties_in_run(v, i as int, differs as int);
                if differs < len {
                    assert(self.tallys@[to_check@[differs as int].0 as int].value() == self.tallys@[orig[differs as int].0 as int].value());
                    assert(v[differs as int] != v[i as int]);
                    assert(v[differs - 1] == v[i as int]);
                }
            }
            if differs != i + 1 {
                let mut tied = copy_range(to_check, i, differs);
                let ghost run = tied@;
                proof {
                    lemma_subrange_distinct(to_check@, i as int, differs as int);
                    assert(all_with_value(run, self.tallys@, ti.value()));
                }
                let run_len = differs - i;
                let g = match granularity {
                    TieResolutionGranularityNeeded::LowestSeparated(d) => if 0 < d && d < run_len {
                        granularity
                    } else {
                        TieResolutionGranularityNeeded::Total
                    },
                    TieResolutionGranularityNeeded::Total => TieResolutionGranularityNeeded::Total,
                };
                proof {
                    assert(tallies_cover(self.transcript.counts@, tied@)) by {
                        assert forall|k: int, j: int|
                            0 <= k < self.transcript.counts@.len() && 0 <= j < tied@.len() implies (#[trigger] tied@[j]).0
                            < (#[trigger] self.transcript.counts@[k]).status.tallies.candidate@.len() by {
                            assert(tied@[j] == to_check@[i + j]);
                        }
                    }
                }
                let ghost tied_before = tied@;
                let ghost i0 = i;
                let ghost differs0 = differs;
                self.resolve_tie(&mut tied, how, g, usage, valid);
                proof {
                    lemma_permutation_keeps_value(run, tied@, self.tallys@, ti.value());
                    assert(to_check@.subrange(i as int, i + tied@.len()) == run);
                    lemma_replace_with_permutation(to_check@, i as int, tied@);
                }
                let ghost before = to_check@;
                write_range(to_check, i, &tied);
                proof {
                    assert forall|k: int| orig.len() >= 2 && all_tied(orig, start.tallys@) && countback_resolves_at(how, start.transcript.counts@, orig, k) implies (differs == len && sorted_by_key(
                        to_check@,
                        #[trigger] start.transcript.counts@[k].status.tallies.candidate@,
                    )) by {
                        assert(before == orig);
                        assert(differs0 == len);
                        assert(tied_before =~= orig);
                        assert(to_check@ =~= tied@);
                    }
                }
                proof {
                    lemma_permutation_keeps_distinct(orig, to_check@);
                    lemma_permutation_keeps_indices(orig, to_check@, n);
                    assert forall|k: int| 0 <= k < to_check@.len() implies #[trigger] self.tallys@[to_check@[k].0 as int].value()
                        == self.tallys@[orig[k].0 as int].value() by {
                        assert(self.tallys@[before[k].0 as int].value() == self.tallys@[orig[k].0 as int].value());
                        if i <= k < differs {
                            assert(to_check@[k] == tied@[k - i]);
                            assert(self.tallys@[tied@[k - i].0 as int].value() == ti.value());
                            assert(self.tallys@[before[k].0 as int].value() == ti.value());
                        } else {
                            assert(to_check@[k] == before[k]);
                        }
                    }
                }
            }
            i = differs;
        }
    }
}

/// Removing a candidate not in the first part of a list only touches the second part.
proof fn lemma_without_concat(a: Seq<CandidateIndex>, y: Seq<CandidateIndex>, c: CandidateIndex)
    requires
        !a.contains(c),
    ensures
        without(a + y, c) == a + without(y, c),
    decreases y.len(),
{
    if y.len() == 0 {
        assert(a + y == a);
        lemma_without_absent(a, c);
        assert(a + Seq::<CandidateIndex>::empty() == a);
    } else {
        lemma_without_concat(a, y.drop_last(), c);
        assert((a + y).drop_last() == a + y.drop_last());
        assert((a + y).last() == y.last());
        if y.last() != c {
            assert((a + without(y.drop_last(), c)).push(y.last()) == a + without(y.drop_last(), c).push(y.last()));
        }
    }
}

/// Removing a candidate that is not there changes nothing.
proof fn lemma_without_absent(a: Seq<CandidateIndex>, c: CandidateIndex)
    requires
        !a.contains(c),
    ensures
        without(a, c) == a,
    decreases a.len(),
{
    if a.len() > 0 {
        assert(a.drop_last().push(a.last()) == a);
        assert(!a.drop_last().contains(c)) by {
            if a.drop_last().contains(c) {
                let k = choose|k: int| 0 <= k < a.drop_last().len() && a.drop_last()[k] == c;
                assert(a[k] == c);
            }
        }
        assert(a[a.len() - 1] != c);
        lemma_without_absent(a.drop_last(), c);
    }
}

/// Removing one more candidate from what is left of a list.
proof fn lemma_without_keep(b: Seq<CandidateIndex>, x: Seq<CandidateIndex>, c: CandidateIndex)
    ensures
        without(keep_if_in(b, x, false), c) == keep_if_in(b, x.push(c), false),
    decreases b.len(),
{
    if b.len() > 0 {
        let l = b.last();
        lemma_without_keep(b.drop_last(), x, c);
        assert(x.push(c).contains(l) <==> x.contains(l) || l == c) by {
            if x.push(c).contains(l) {
                let k = choose|k: int| 0 <= k < x.push(c).len() && x.push(c)[k] == l;
                if k < x.len() {
                    assert(x[k] == l);
                }
            }
            if x.contains(l) {
                let k = choose|k: int| 0 <= k < x.len() && x[k] == l;
                assert(x.push(c)[k] == l);
            }
            if l == c {
                assert(x.push(c)[x.len() as int] == l);
            }
        }
        let k = keep_if_in(b.drop_last(), x, false);
        if !x.contains(l) {
            assert(keep_if_in(b, x, false) == k.push(l));
            assert(k.push(l).drop_last() == k);
            assert(k.push(l).last() == l);
            if l == c {
                assert(without(k.push(l), c) == without(k, c));
            } else {
                assert(without(k.push(l), c) == without(k, c).push(l));
            }
        }
    }
}

/// Nothing is left of a list once every candidate in it is removed.
proof fn lemma_keep_all_removed(b: Seq<CandidateIndex>, x: Seq<CandidateIndex>)
    requires
        forall|i: int| 0 <= i < b.len() ==> x.contains(#[trigger] b[i]),
    ensures
        keep_if_in(b, x, false).len() == 0,
    decreases b.len(),
{
    if b.len() > 0 {
        assert(x.contains(b[b.len() - 1]));
        assert forall|i: int| 0 <= i < b.drop_last().len() implies x.contains(#[trigger] b.drop_last()[i]) by {
            assert(b.drop_last()[i] == b[i]);
        }
        lemma_keep_all_removed(b.drop_last(), x);
    }
}

/// Removing nothing leaves the list.
proof fn lemma_keep_none(b: Seq<CandidateIndex>)
    ensures
        keep_if_in(b, Seq::empty(), false) == b,
    decreases b.len(),
{
    if b.len() > 0 {
        lemma_keep_none(b.drop_last());
        assert(b.drop_last().push(b.last()) == b);
    }
}

/// The candidates from position `k` on all have tallies above `q`, and (unless `k` is 0) the one
/// just before does not.
pub open spec fn above_quota_from<T: TallyValue>(s: Seq<CandidateIndex>, tallies: Seq<T>, q: nat, k: int) -> bool {
    &&& 0 <= k <= s.len()
    &&& forall|i: int| k <= i < s.len() ==> #[trigger] tallies[s[i].0 as int].value() > q
    &&& k > 0 ==> tallies[s[k - 1].0 as int].value() <= q
}

/// Where the stretch at the end of the list of candidates whose tallies are above `q` starts.
pub open spec fn quota_start<T: TallyValue>(s: Seq<CandidateIndex>, tallies: Seq<T>, q: nat) -> int
    decreases s.len(),
{
    if s.len() == 0 {
        0
    } else if tallies[s.last().0 as int].value() > q {
        quota_start(s.drop_last(), tallies, q)
    } else {
        s.len() as int
    }
}

proof fn lemma_quota_start<T: TallyValue>(s: Seq<CandidateIndex>, tallies: Seq<T>, q: nat, k: int)
    requires
        above_quota_from(s, tallies, q, k),
    ensures
        quota_start(s, tallies, q) == k,
    decreases s.len(),
{
    if s.len() > 0 && k < s.len() {
        assert forall|i: int| k <= i < s.drop_last().len() implies #[trigger] tallies[s.drop_last()[i].0 as int].value() > q by {
            assert(s.drop_last()[i] == s[i]);
        }
        if k > 0 {
            assert(s.drop_last()[k - 1] == s[k - 1]);
        }
        assert(tallies[s[s.len() - 1].0 as int].value() > q);
        lemma_quota_start(s.drop_last(), tallies, q, k);
    }
}

/// Every candidate in the list elected for reaching the quota has a tally above the quota.
pub open spec fn elected_by_quota_above<T: TallyValue>(elected: Seq<CandidateElected>, tallies: Seq<T>, quota: T) -> bool {
    forall|i: int|
        0 <= i < elected.len() && (#[trigger] elected[i]).why == ElectionReason::ReachedQuota ==> tallies[elected[i].who.0 as int].value()
            > quota.value()
}

impl<'a, Rules: PreferenceDistributionRules> PreferenceDistributor<'a, Rules> {
    /// Elect the candidates in the list, the last first, for the given reason; with `pending`,
    /// those above the quota get their surplus distributed later. The candidates must be
    /// continuing, and form the end of the list of continuing candidates.
    #[verifier::loop_isolation(false)]
    fn elect_all_of(&mut self, list: &Vec<CandidateIndex>, why: ElectionReason, pending: bool, Ghost(k): Ghost<int>)
        requires
            old(self).wf(),
            0 <= k <= old(self).continuing_candidates_sorted_by_tally@.len(),
            list@.to_multiset() == old(self).continuing_candidates_sorted_by_tally@.skip(k).to_multiset(),
            pending ==> forall|i: int| 0 <= i < list@.len() ==> #[trigger] old(self).tallys@[list@[i].0 as int].value()
                > old(self).quota.value(),
        ensures
            final(self).wf(),
            final(self).continuing_candidates_sorted_by_tally@ == old(self).continuing_candidates_sorted_by_tally@.take(k),
            final(self).elected_candidates@ == old(self).elected_candidates@ + list@.reverse(),
            final(self).pending_surplus_distribution@ == if pending {
                old(self).pending_surplus_distribution@ + list@.reverse()
            } else {
                old(self).pending_surplus_distribution@
            },
            final(self).tallys == old(self).tallys,
            final(self).papers == old(self).papers,
            final(self).transcript.counts == old(self).transcript.counts,
            final(self).transcript.quota == old(self).transcript.quota,
            final(self).exhausted == old(self).exhausted,
            final(self).current_count == old(self).current_count,
            final(self).quota == old(self).quota,
            final(self).num_candidates == old(self).num_candidates,
            final(self).candidates_to_be_elected == old(self).candidates_to_be_elected,
            final(self).original_votes == old(self).original_votes,
            final(self).excluded_at_start == old(self).excluded_at_start,
            final(self).ec_resolutions == old(self).ec_resolutions,
            final(self).in_this_count.not_continuing@ == old(self).in_this_count.not_continuing@,
            final(self).in_this_count.decisions == old(self).in_this_count.decisions,
            final(self).in_this_count.created_transfer_value == old(self).in_this_count.created_transfer_value,
            same_surplus_progress(final(self).pending_surplus_distribution, old(self).pending_surplus_distribution),
            elected_by_quota_above(old(self).in_this_count.elected@, old(self).tallys@, old(self).quota) && (why == ElectionReason::ReachedQuota ==> pending) ==> elected_by_quota_above(final(self).in_this_count.elected@, final(self).tallys@, final(self).quota),
    {
        let ghost sorted = self.continuing_candidates_sorted_by_tally@;
        let ghost prefix = sorted.take(k);
        let ghost suffix = sorted.skip(k);
        let ghost start = *self;
        let ghost mut removed: Seq<CandidateIndex> = Seq::empty();
        proof {
            lemma_elect_setup(sorted, k, list@, self.num_candidates as nat);
            assert(list@.skip(list@.len() as int).reverse() == removed);
        }
        let mut j = list.len();
        while j > 0
            invariant
                self.wf(),
                j <= list@.len(),
                all_below(list@, self.num_candidates as nat),
                !has_repeats(list@),
                self.continuing_candidates_sorted_by_tally@ == prefix + keep_if_in(suffix, removed, false),
                removed == list@.skip(j as int).reverse(),
                self.elected_candidates@ == start.elected_candidates@ + removed,
                self.pending_surplus_distribution@ == if pending {
                    start.pending_surplus_distribution@ + removed
                } else {
                    start.pending_surplus_distribution@
                },
                self.tallys == start.tallys,
                self.papers == start.papers,
                self.transcript.counts == start.transcript.counts,
                self.transcript.quota == start.transcript.quota,
                self.exhausted == start.exhausted,
                self.current_count == start.current_count,
                self.quota == start.quota,
                self.num_candidates == start.num_candidates,
                self.candidates_to_be_elected == start.candidates_to_be_elected,
                self.original_votes == start.original_votes,
                self.excluded_at_start == start.excluded_at_start,
                self.ec_resolutions == start.ec_resolutions,
                self.in_this_count.not_continuing@ == start.in_this_count.not_continuing@,
                self.in_this_count.decisions == start.in_this_count.decisions,
                self.in_this_count.created_transfer_value == start.in_this_count.created_transfer_value,
                same_surplus_progress(self.pending_surplus_distribution, start.pending_surplus_distribution),
                elected_by_quota_above(start.in_this_count.elected@, start.tallys@, start.quota) && (why == ElectionReason::ReachedQuota
                    ==> pending) ==> elected_by_quota_above(self.in_this_count.elected@, self.tallys@, self.quota),
            decreases j,
        {
            j = j - 1;
            let c = list[j];
            proof {
                lemma_elect_step(sorted, k, list@, j as int, removed);
            }
            let ghost before_declare = self.in_this_count.elected@;
            self.declare_elected(c, why);
            proof {
                if elected_by_quota_above(start.in_this_count.elected@, start.tallys@, start.quota) && (why == ElectionReason::ReachedQuota
                    ==> pending) {
                    assert forall|i: int|
                        0 <= i < self.in_this_count.elected@.len() && (#[trigger] self.in_this_count.elected@[i]).why
                            == ElectionReason::ReachedQuota implies self.tallys@[self.in_this_count.elected@[i].who.0 as int].value()
                        > self.quota.value() by {
                        if i < before_declare.len() {
                            assert(self.in_this_count.elected@[i] == before_declare[i]);
                        } else {
                            assert(self.in_this_count.elected@[i].who == list@[j as int]);
                        }
                    }
                }
            }
            if pending && self.quota.is_less(&self.tally(c)) {
                self.pending_surplus_distribution.push(c);
            }
            proof {
                removed = removed.push(c);
            }
        }
        proof {
            lemma_elect_done(sorted, k, list@, removed);
        }
    }

    /// Elect every continuing candidate whose tally is above the quota (those at the end of the
    /// list of continuing candidates, which is sorted by tally), highest first after resolving
    /// ties in the order of election; they all have surpluses to be distributed.
    pub fn check_elected_by_quota(&mut self)
        requires
            old(self).wf(),
        ensures
            final(self).wf(),
            ({
                let k = quota_start(
                    old(self).continuing_candidates_sorted_by_tally@,
                    old(self).tallys@,
                    old(self).quota.value(),
                );
                let new_elected = final(self).elected_candidates@.skip(old(self).elected_candidates@.len() as int);
                &&& final(self).continuing_candidates_sorted_by_tally@ == old(self).continuing_candidates_sorted_by_tally@.take(k)
                &&& final(self).elected_candidates@.take(old(self).elected_candidates@.len() as int) == old(self).elected_candidates@
                &&& new_elected.to_multiset() == old(self).continuing_candidates_sorted_by_tally@.skip(k).to_multiset()
                &&& final(self).pending_surplus_distribution@ == old(self).pending_surplus_distribution@ + new_elected
            }),
            same_but_elections(*final(self), *old(self)),
            final(self).work_left() <= old(self).work_left(),
            final(self).tallys == old(self).tallys,
            final(self).papers == old(self).papers,
            final(self).transcript.counts == old(self).transcript.counts,
            final(self).transcript.quota == old(self).transcript.quota,
            final(self).exhausted == old(self).exhausted,
            final(self).current_count == old(self).current_count,
            final(self).quota == old(self).quota,
            final(self).num_candidates == old(self).num_candidates,
            final(self).candidates_to_be_elected == old(self).candidates_to_be_elected,
            final(self).original_votes == old(self).original_votes,
            final(self).excluded_at_start == old(self).excluded_at_start,
            elected_by_quota_above(old(self).in_this_count.elected@, old(self).tallys@, old(self).quota) ==> elected_by_quota_above(final(self).in_this_count.elected@, final(self).tallys@, final(self).quota),
    {
        broadcast use vstd::seq_lib::group_to_multiset_ensures;
        let len = self.continuing_candidates_sorted_by_tally.len();
        let ghost sorted = self.continuing_candidates_sorted_by_tally@;
        let mut k = len;
        while k > 0 && self.quota.is_less(&self.tally(self.continuing_candidates_sorted_by_tally[k - 1]))
            invariant
                self.wf(),
                k <= len,
                len == sorted.len(),
                sorted == self.continuing_candidates_sorted_by_tally@,
                forall|i: int| k <= i < len ==> #[trigger] self.tallys@[sorted[i].0 as int].value() > self.quota.value(),
            decreases k,
        {
            k = k - 1;
        }
        proof {
            lemma_quota_start(sorted, self.tallys@, self.quota.value(), k as int);
        }
        let mut elected_by_quota = copy_range(&self.continuing_candidates_sorted_by_tally, k, len);
        proof {
            assert(elected_by_quota@ == sorted.skip(k as int));
            lemma_subrange_distinct(sorted, k as int, len as int);
            assert(all_below(elected_by_quota@, self.num_candidates as nat)) by {
                assert forall|i: int| 0 <= i < elected_by_quota@.len() implies (#[trigger] elected_by_quota@[i]).0
                    < self.num_candidates by {
                    assert(elected_by_quota@[i] == sorted[k + i]);
                }
            }
        }
        let ghost before_ties = elected_by_quota@;
        self.check_for_ties_and_resolve(
            &mut elected_by_quota,
            Rules::resolve_ties_elected_by_quota(),
            TieResolutionGranularityNeeded::Total,
            TieResolutionUsage::OrderElected,
        );
        proof {
            assert forall|i: int| 0 <= i < elected_by_quota@.len() implies #[trigger] self.tallys@[elected_by_quota@[i].0 as int].value()
                > self.quota.value() by {
                assert(self.tallys@[before_ties[i].0 as int].value() > self.quota.value()) by {
                    assert(before_ties[i] == sorted[k + i]);
                }
            }
        }
        let ghost before_elected = self.elected_candidates@;
        self.elect_all_of(&elected_by_quota, ElectionReason::ReachedQuota, true, Ghost(k as int));
        proof {
            assert(self.elected_candidates@.skip(before_elected.len() as int) == elected_by_quota@.reverse());
            assert(self.elected_candidates@.take(before_elected.len() as int) == before_elected);
            lemma_reverse_multiset(elected_by_quota@);
            assert(elected_by_quota@.to_multiset().len() == elected_by_quota@.len());
            assert forall|x: CandidateIndex| #[trigger] self.continuing_candidates_sorted_by_tally@.contains(x) implies sorted.contains(x) by {
                let a = choose|a: int| 0 <= a < self.continuing_candidates_sorted_by_tally@.len() && self.continuing_candidates_sorted_by_tally@[a] == x;
                assert(sorted[a] == x);
            }
        }
    }
}

/// The parts of the state the checks for election leave alone.
pub open spec fn same_but_elections<'a, R: PreferenceDistributionRules>(a: PreferenceDistributor<'a, R>, b: PreferenceDistributor<'a, R>) -> bool {
    &&& a.tallys == b.tallys
    &&& a.papers == b.papers
    &&& a.transcript.counts == b.transcript.counts
    &&& a.transcript.quota == b.transcript.quota
    &&& a.exhausted == b.exhausted
    &&& a.current_count == b.current_count
    &&& a.quota == b.quota
    &&& a.num_candidates == b.num_candidates
    &&& a.candidates_to_be_elected == b.candidates_to_be_elected
    &&& a.original_votes == b.original_votes
    &&& a.excluded_at_start == b.excluded_at_start
    &&& a.ec_resolutions == b.ec_resolutions
    &&& a.in_this_count.not_continuing@ == b.in_this_count.not_continuing@
    &&& a.in_this_count.created_transfer_value == b.in_this_count.created_transfer_value
    &&& same_surplus_progress(a.pending_surplus_distribution, b.pending_surplus_distribution)
    &&& a.elected_candidates@.len() >= b.elected_candidates@.len()
    &&& a.elected_candidates@.take(b.elected_candidates@.len() as int) == b.elected_candidates@
    &&& forall|x: CandidateIndex| #[trigger] a.continuing_candidates_sorted_by_tally@.contains(x) ==> b.continuing_candidates_sorted_by_tally@.contains(x)
}

impl<'a, Rules: PreferenceDistributionRules> PreferenceDistributor<'a, Rules> {
    /// Federal rule 17: in respect of the last vacancy for which two continuing candidates
    /// remain, the continuing candidate who has the larger number of votes is elected
    /// notwithstanding that that number is below the quota; a tie is resolved as the rules say.
    pub fn check_elected_by_highest_of_remaining_2_when_1_needed_no_tie_resolution(&mut self)
        requires
            old(self).wf(),
        ensures
            final(self).wf(),
            same_but_elections(*final(self), *old(self)),
            final(self).work_left() <= old(self).work_left(),
            final(self).pending_surplus_distribution@ == old(self).pending_surplus_distribution@,
            if old(self).continuing_candidates_sorted_by_tally@.len() == 2 && old(self).elected_candidates@.len() + 1
                == old(self).candidates_to_be_elected {
                let w = final(self).elected_candidates@.last();
                &&& final(self).elected_candidates@ == old(self).elected_candidates@.push(w)
                &&& old(self).continuing_candidates_sorted_by_tally@.contains(w)
                &&& old(self).tallys@[w.0 as int].value() == old(self).tallys@[old(self).continuing_candidates_sorted_by_tally@[1].0 as int].value()
                &&& final(self).continuing_candidates_sorted_by_tally@ == without(old(self).continuing_candidates_sorted_by_tally@, w)
            } else {
                *final(self) == *old(self)
            },
            elected_by_quota_above(old(self).in_this_count.elected@, old(self).tallys@, old(self).quota) ==> elected_by_quota_above(final(self).in_this_count.elected@, final(self).tallys@, final(self).quota),
    {
        broadcast use vstd::seq_lib::group_to_multiset_ensures;
        if self.continuing_candidates_sorted_by_tally.len() == 2 && self.remaining_to_elect() == 1 {
            let mut possibilities = copy_range(&self.continuing_candidates_sorted_by_tally, 0, 2);
            let ghost sorted = self.continuing_candidates_sorted_by_tally@;
            proof {
                assert(possibilities@ == sorted);
            }
            self.check_for_ties_and_resolve(
                &mut possibilities,
                Rules::resolve_ties_elected_one_of_last_two(),
                TieResolutionGranularityNeeded::Total,
                TieResolutionUsage::ShortcutWinner,
            );
            let w = possibilities[1];
            proof {
                assert(possibilities@.contains(w));
                assert(possibilities@.to_multiset().count(w) > 0);
                assert(sorted.to_multiset().count(w) > 0);
            }
            let ghost before_declare = self.in_this_count.elected@;
            self.declare_elected(w, ElectionReason::HighestOfLastTwoStanding);
            proof {
                assert forall|i: int|
                    0 <= i < self.in_this_count.elected@.len() && (#[trigger] self.in_this_count.elected@[i]).why
                        == ElectionReason::ReachedQuota && elected_by_quota_above(old(self).in_this_count.elected@, old(self).tallys@, old(self).quota) implies self.tallys@[self.in_this_count.elected@[i].who.0 as int].value()
                    > self.quota.value() by {
                    if i < before_declare.len() {
                        assert(self.in_this_count.elected@[i] == before_declare[i]);
                    }
                }
            }
            proof {
                lemma_without_len(sorted, w);
                lemma_without(sorted, w, self.num_candidates as nat);
            }
        }
        assert(self.elected_candidates@.take(old(self).elected_candidates@.len() as int) =~= old(self).elected_candidates@);
    }

    /// Federal rule 18: where the number of continuing candidates is equal to the number of
    /// remaining unfilled vacancies, those candidates are elected, highest first after resolving
    /// ties in the order of election.
    pub fn check_if_should_elect_all_remaining(&mut self)
        requires
            old(self).wf(),
        ensures
            final(self).wf(),
            same_but_elections(*final(self), *old(self)),
            final(self).work_left() <= old(self).work_left(),
            final(self).pending_surplus_distribution@ == old(self).pending_surplus_distribution@,
            if old(self).continuing_candidates_sorted_by_tally@.len() == (if old(self).elected_candidates@.len()
                <= old(self).candidates_to_be_elected {
                old(self).candidates_to_be_elected - old(self).elected_candidates@.len()
            } else {
                0
            }) {
                let new_elected = final(self).elected_candidates@.skip(old(self).elected_candidates@.len() as int);
                &&& final(self).continuing_candidates_sorted_by_tally@.len() == 0
                &&& new_elected.to_multiset() == old(self).continuing_candidates_sorted_by_tally@.to_multiset()
            } else {
                *final(self) == *old(self)
            },
            elected_by_quota_above(old(self).in_this_count.elected@, old(self).tallys@, old(self).quota) ==> elected_by_quota_above(final(self).in_this_count.elected@, final(self).tallys@, final(self).quota),
    {
        if self.continuing_candidates_sorted_by_tally.len() == self.remaining_to_elect() {
            let len = self.continuing_candidates_sorted_by_tally.len();
            let mut elected_group = copy_range(&self.continuing_candidates_sorted_by_tally, 0, len);
            let ghost sorted = self.continuing_candidates_sorted_by_tally@;
            proof {
                assert(elected_group@ == sorted);
            }
            self.check_for_ties_and_resolve(
                &mut elected_group,
                Rules::resolve_ties_elected_all_remaining(),
                TieResolutionGranularityNeeded::Total,
                TieResolutionUsage::OrderElected,
            );
            proof {
                assert(sorted.skip(0) == sorted);
            }
            let ghost before = self.elected_candidates@;
            self.elect_all_of(&elected_group, ElectionReason::AllRemainingMustBeElected, false, Ghost(0));
            proof {
                assert(self.elected_candidates@.skip(before.len() as int) == elected_group@.reverse());
                assert(self.elected_candidates@.take(before.len() as int) == before);
                lemma_reverse_multiset(elected_group@);
            }
        }
        assert(self.elected_candidates@.take(old(self).elected_candidates@.len() as int) =~= old(self).elected_candidates@);
    }

    /// Elect those who reached the quota, and then those the rules say are elected at this point.
    pub fn check_elected(&mut self, reason: &ReasonForCount, reason_completed: bool)
        requires
            old(self).wf(),
        ensures
            final(self).wf(),
            same_but_elections(*final(self), *old(self)),
            final(self).work_left() <= old(self).work_left(),
            elected_by_quota_above(old(self).in_this_count.elected@, old(self).tallys@, old(self).quota) ==> elected_by_quota_above(final(self).in_this_count.elected@, final(self).tallys@, final(self).quota),
    {
        self.check_elected_by_quota();
        let ghost after_quota = *self;
        if self.should_check(Rules::when_to_check_if_just_two_standing_for_shortcut_election(), reason, reason_completed) {
            self.check_elected_by_highest_of_remaining_2_when_1_needed_no_tie_resolution();
        }
        let ghost after_two = *self;
        if self.should_check(Rules::when_to_check_if_all_remaining_should_get_elected(), reason, reason_completed) {
            self.check_if_should_elect_all_remaining();
        }
        proof {
            let a = old(self).elected_candidates@;
            let b = after_quota.elected_candidates@;
            let c = after_two.elected_candidates@;
            let d = self.elected_candidates@;
            assert(d.take(a.len() as int) =~= a) by {
                assert(d.take(c.len() as int).take(a.len() as int) =~= d.take(a.len() as int));
                assert(c.take(b.len() as int).take(a.len() as int) =~= c.take(a.len() as int));
                assert(b.take(a.len() as int) == a);
            }
        }
    }
}

/// A pile holds no more papers than all the piles.
proof fn lemma_pile_within<'a, K, Tally>(
    piles: Seq<(ProvenanceKey<K>, (PileProvenance<Tally>, VotesWithSameTransferValue<'a>))>,
    i: int,
)
    requires
        0 <= i < piles.len(),
    ensures
        piles[i].1.1.num_ballots.0 <= papers_in(piles),
{
    lemma_papers_in_remove(piles, i);
}

/// All the piles hold no more ATL papers than papers.
proof fn lemma_atl_within<'a, K, Tally>(piles: Seq<(ProvenanceKey<K>, (PileProvenance<Tally>, VotesWithSameTransferValue<'a>))>)
    requires
        piles_wf(piles),
    ensures
        atl_papers_in(piles) <= papers_in(piles),
    decreases piles.len(),
{
    if piles.len() > 0 {
        assert(piles_wf(piles.drop_last())) by {
            assert forall|i: int| 0 <= i < piles.drop_last().len() implies (#[trigger] piles.drop_last()[i]).1.1.wf()
                && piles.drop_last()[i].0.1.wf() && distinct(piles.drop_last()[i].1.0.counts_comes_from.all@) by {
                assert(piles.drop_last()[i] == piles[i]);
            }
        }
        lemma_atl_within(piles.drop_last());
        assert(piles[piles.len() - 1].1.1.wf());
        lemma_atl_papers_bounded(piles.last().1.1.votes@);
    }
}

impl<'a, Rules: PreferenceDistributionRules> PreferenceDistributor<'a, Rules> {
    /// Add votes to the papers of candidate `c`, with the given transfer value, received in this
    /// count, worth `tally`. Where the rules divide papers by when their transfer value was
    /// created and that time is not known, the papers are not added: the rules do not say where
    /// they go.
    fn add_to_papers(
        &mut self,
        c: usize,
        votes: &VotesWithSameTransferValue<'a>,
        transfer_value: TransferValue,
        when_tv_created: Option<CountIndex>,
        tally: Rules::Tally,
    )
        requires
            old(self).wf(),
            c < old(self).num_candidates,
            votes.wf(),
            transfer_value.wf(),
            all_papers(old(self).papers@) + total_papers(votes.votes@) + old(self).exhausted.0 <= total_papers(
                old(self).original_votes@,
            ),
        ensures
            final(self).wf(),
            all_papers(final(self).papers@) <= all_papers(old(self).papers@) + total_papers(votes.votes@),
            final(self).papers@.len() == old(self).papers@.len(),
            Rules::SplitByNumber::key_defined(when_tv_created) ==> all_papers(final(self).papers@) == all_papers(old(self).papers@)
                + total_papers(votes.votes@),
            Rules::SplitByNumber::key_defined(when_tv_created) ==> papers_in(final(self).papers@[c as int].by_provenance@)
                == papers_in(old(self).papers@[c as int].by_provenance@) + total_papers(votes.votes@),
            forall|d: int| 0 <= d < final(self).papers@.len() && d != c ==> #[trigger] final(self).papers@[d] == old(self).papers@[d],
            same_but_papers(*final(self), *old(self)),
    {
        if Rules::SplitByNumber::is_key_defined(when_tv_created) {
            let ghost ps = self.papers@;
            let mut p = self.papers.remove(c);
            proof {
                lemma_all_papers_update(ps, c as int, p);
                assert(piles_wf(p.by_provenance@));
                let parcel = Rules::SplitByNumber::spec_key(self.current_count, when_tv_created);
                match find_pile(p.by_provenance@, parcel, transfer_value) {
                    Some(i) => {
                        lemma_find_pile_in_range(p.by_provenance@, parcel, transfer_value);
                        lemma_pile_within(p.by_provenance@, i);
                    },
                    None => {},
                }
            }
            p.add(votes, transfer_value, self.current_count, when_tv_created, tally);
            proof {
                lemma_all_papers_update(ps, c as int, p);
                assert(ps.remove(c as int).insert(c as int, p) == ps.update(c as int, p));
            }
            self.papers.insert(c, p);
        }
    }
}

/// The number of papers in the list of counts of papers.
pub open spec fn papers_total(s: Seq<BallotPaperCount>) -> nat
    decreases s.len(),
{
    if s.len() == 0 {
        0
    } else {
        papers_total(s.drop_last()) + s.last().0 as nat
    }
}

/// A count records `total` papers in all: those held by the candidates and those exhausted.
pub open spec fn count_holds_papers<T>(count: SingleCount<T>, total: int) -> bool {
    papers_total(count.status.papers.candidate@) + count.status.papers.exhausted.0 == total
}

/// Counting each candidate's papers gives all the papers.
proof fn lemma_papers_total_all<'a, S: HowSplitByCountNumber, T>(
    counted: Seq<BallotPaperCount>,
    ps: Seq<VotesWithMultipleTransferValues<'a, S, T>>,
)
    requires
        counted.len() == ps.len(),
        forall|c: int| 0 <= c < ps.len() ==> (#[trigger] counted[c]).0 == papers_in(ps[c].by_provenance@),
    ensures
        papers_total(counted) == all_papers(ps),
    decreases ps.len(),
{
    if ps.len() > 0 {
        lemma_papers_total_all(counted.drop_last(), ps.drop_last());
    }
}

impl<'a, Rules: PreferenceDistributionRules> PreferenceDistributor<'a, Rules> {
    /// The number of papers each candidate holds (only those above the line, with `atl`).
    fn papers_by_candidate(&self, atl: bool) -> (res: Vec<BallotPaperCount>)
        requires
            self.wf(),
        ensures
            res@.len() == self.num_candidates,
            forall|c: int| 0 <= c < self.num_candidates ==> (#[trigger] res@[c]).0 == if atl {
                atl_papers_in(self.papers@[c].by_provenance@)
            } else {
                papers_in(self.papers@[c].by_provenance@)
            },
    {
        let mut res: Vec<BallotPaperCount> = Vec::new();
        for c in 0..self.num_candidates
            invariant
                self.wf(),
                res@.len() == c,
                forall|d: int| 0 <= d < c ==> (#[trigger] res@[d]).0 == if atl {
                    atl_papers_in(self.papers@[d].by_provenance@)
                } else {
                    papers_in(self.papers@[d].by_provenance@)
                },
        {
            proof {
                lemma_all_papers_update(self.papers@, c as int, self.papers@[c as int]);
                assert(piles_wf(self.papers@[c as int].by_provenance@));
                lemma_atl_within(self.papers@[c as int].by_provenance@);
            }
            if atl {
                res.push(self.papers[c].num_atl_ballots());
            } else {
                res.push(self.papers[c].num_ballots());
            }
        }
        res
    }

    /// A copy of the tallies.
    fn copy_tallies(&self) -> (res: Vec<Rules::Tally>)
        ensures
            res@ == self.tallys@,
    {
        let mut res: Vec<Rules::Tally> = Vec::new();
        for c in 0..self.tallys.len()
            invariant
                res@ == self.tallys@.take(c as int),
        {
            res.push(self.tallys[c]);
            assert(self.tallys@.take(c + 1) =~= self.tallys@.take(c as int).push(self.tallys@[c as int]));
        }
        assert(self.tallys@.take(self.tallys@.len() as int) =~= self.tallys@);
        res
    }

    /// Finish a count: sort the continuing candidates by tally, elect those who should be, and
    /// record the count in the transcript. Those elected in this count are noted as no longer
    /// continuing in the next.
    pub fn end_of_count_step(&mut self, reason: ReasonForCount, portion: PortionOfReasonBeingDoneThisCount, reason_completed: bool)
        requires
            old(self).wf(),
        ensures
            final(self).wf(),
            final(self).transcript.counts@.len() == old(self).transcript.counts@.len() + 1,
            count_holds_papers(final(self).transcript.counts@.last(), all_papers(final(self).papers@) + final(self).exhausted.0),
            elected_by_quota_above(old(self).in_this_count.elected@, old(self).tallys@, old(self).quota) ==> elected_by_quota_above(final(self).transcript.counts@.last().elected@, final(self).transcript.counts@.last().status.tallies.candidate@, final(self).quota),
            final(self).transcript.counts@.drop_last() == old(self).transcript.counts@,
            old(self).transcript.counts@.is_prefix_of(final(self).transcript.counts@),
            final(self).transcript.counts@.last().status.tallies.candidate@ == final(self).tallys@,
            final(self).transcript.counts@.last().reason_completed == reason_completed,
            final(self).transcript.counts@.last().reason == reason,
            final(self).transcript.counts@.last().created_transfer_value == old(self).in_this_count.created_transfer_value,
            same_surplus_progress(final(self).pending_surplus_distribution, old(self).pending_surplus_distribution),
            final(self).tallys == old(self).tallys,
            final(self).papers == old(self).papers,
            final(self).exhausted == old(self).exhausted,
            final(self).quota == old(self).quota,
            final(self).num_candidates == old(self).num_candidates,
            final(self).candidates_to_be_elected == old(self).candidates_to_be_elected,
            final(self).original_votes == old(self).original_votes,
            final(self).excluded_at_start == old(self).excluded_at_start,
            final(self).elected_candidates@.len() >= old(self).elected_candidates@.len(),
            final(self).elected_candidates@.take(old(self).elected_candidates@.len() as int) == old(self).elected_candidates@,
            final(self).in_this_count.decisions@.len() == 0,
            final(self).in_this_count.elected@.len() == 0,
            final(self).work_left() <= old(self).work_left(),
            final(self).ec_resolutions == old(self).ec_resolutions,
            forall|x: CandidateIndex| #[trigger] final(self).continuing_candidates_sorted_by_tally@.contains(x) ==> old(self).continuing_candidates_sorted_by_tally@.contains(x),
    {
        let ghost before_sort = self.continuing_candidates_sorted_by_tally@;
        self.resort_candidates();
        proof {
            assert forall|x: CandidateIndex| #[trigger] self.continuing_candidates_sorted_by_tally@.contains(x) implies before_sort.contains(x) by {
                broadcast use vstd::seq_lib::group_to_multiset_ensures;
                assert(self.continuing_candidates_sorted_by_tally@.to_multiset().count(x) > 0);
            }
        }
        proof {
            assert(self.continuing_candidates_sorted_by_tally@.to_multiset().len() == self.continuing_candidates_sorted_by_tally@.len()) by {
                broadcast use vstd::seq_lib::group_to_multiset_ensures;
            }
            assert(old(self).continuing_candidates_sorted_by_tally@.to_multiset().len() == old(self).continuing_candidates_sorted_by_tally@.len()) by {
                broadcast use vstd::seq_lib::group_to_multiset_ensures;
            }
        }
        self.check_elected(&reason, reason_completed);
        let tallies = self.copy_tallies();
        let papers = self.papers_by_candidate(false);
        let atl_papers = self.papers_by_candidate(true);
        let mut elected: Vec<CandidateElected> = Vec::new();
        std::mem::swap(&mut elected, &mut self.in_this_count.elected);
        let mut not_continuing: Vec<CandidateIndex> = Vec::new();
        std::mem::swap(&mut not_continuing, &mut self.in_this_count.not_continuing);
        let mut decisions: Vec<TieResolutionExplicitDecision> = Vec::new();
        std::mem::swap(&mut decisions, &mut self.in_this_count.decisions);
        let mut created_transfer_value: Option<TransferValueCreation<Rules::Tally>> = None;
        std::mem::swap(&mut created_transfer_value, &mut self.in_this_count.created_transfer_value);
        let mut next_not_continuing: Vec<CandidateIndex> = Vec::new();
        for i in 0..elected.len() {
            next_not_continuing.push(elected[i].who);
        }
        let count = SingleCount {
            reason,
            portion,
            reason_completed,
            elected,
            not_continuing,
            created_transfer_value,
            decisions,
            set_aside_for_quota: None,
            status: EndCountStatus {
                tallies: PerCandidate {
                    candidate: tallies,
                    exhausted: self.tally_exhausted,
                    rounding: self.tally_lost_to_rounding,
                    set_aside: self.tally_set_aside,
                },
                papers: PerCandidate {
                    candidate: papers,
                    exhausted: self.exhausted,
                    rounding: SignedVersion::zero(),
                    set_aside: None,
                },
                atl_papers: Some(
                    PerCandidate {
                        candidate: atl_papers,
                        exhausted: self.exhausted_atl,
                        rounding: SignedVersion::zero(),
                        set_aside: None,
                    },
                ),
                list_of_votes: None,
            },
            count_name: None,
        };
        proof {
            lemma_papers_total_all(count.status.papers.candidate@, self.papers@);
        }
        let ghost before = self.transcript.counts@;
        self.transcript.counts.push(count);
        assert(self.transcript.counts@.drop_last() == before);
        proof {
            assert(before =~= self.transcript.counts@.subrange(0, before.len() as int));
            lemma_surpluses_counted_extend(self.pending_surplus_distribution, before, self.transcript.counts@);
        }
        self.current_count = CountIndex(self.transcript.counts.len());
        self.in_this_count.not_continuing = next_not_continuing;
    }
}

/// More candidates, no fewer papers going to them.
proof fn lemma_going_to_all_monotone(votes: Seq<PartiallyDistributedVote>, continuing: Set<usize>, i: nat, j: nat)
    requires
        i <= j,
    ensures
        papers_going_to_all(votes, continuing, i) <= papers_going_to_all(votes, continuing, j),
    decreases j,
{
    if i < j {
        lemma_going_to_all_monotone(votes, continuing, i, (j - 1) as nat);
    }
}

/// Whether adding `b` to `a` stays within the largest tally.
fn fits<T: TallyValue>(a: &T, b: &T) -> (res: bool)
    ensures
        res == (a.value() + b.value() <= T::max_value()),
{
    let max = T::max_tally();
    proof {
        T::lemma_bounded(*a);
    }
    let room = max.minus(a);
    b.is_less(&room) || b.is_same(&room)
}

impl<'a, Rules: PreferenceDistributionRules> PreferenceDistributor<'a, Rules> {
    /// The first count: each vote goes to its first continuing preference, at a transfer value
    /// of one; then the quota is worked out from the papers that went to candidates.
    #[verifier::loop_isolation(false)]
    pub fn distribute_first_preferences(&mut self)
        requires
            old(self).wf(),
            all_papers(old(self).papers@) == 0,
            old(self).exhausted.0 == 0,
            forall|c: int| 0 <= c < old(self).num_candidates ==> (#[trigger] old(self).tallys@[c]).value() == 0,
        ensures
            final(self).wf(),
            forall|c: int|
                0 <= c < old(self).num_candidates ==> (#[trigger] final(self).tallys@[c]).value() == total_papers(
                    votes_going_to(old(self).original_votes@, old(self).continuing_candidates@, c),
                ) * Rules::Tally::unit(),
            final(self).quota.value() == (papers_going_to_all(
                old(self).original_votes@,
                old(self).continuing_candidates@,
                old(self).num_candidates as nat,
            ) as int / (old(self).candidates_to_be_elected + 1) + 1) * Rules::Tally::unit(),
            final(self).exhausted.0 == exhausted_papers(old(self).original_votes@, old(self).continuing_candidates@, false),
            final(self).transcript.counts@.len() == old(self).transcript.counts@.len() + 1,
            old(self).transcript.counts@.is_prefix_of(final(self).transcript.counts@),
            final(self).transcript.counts@.last().status.tallies.candidate@ == final(self).tallys@,
            final(self).transcript.counts@.last().reason == ReasonForCount::FirstPreferenceCount,
            all_papers(final(self).papers@) + final(self).exhausted.0 == total_papers(final(self).original_votes@),
            count_holds_papers(final(self).transcript.counts@.last(), total_papers(final(self).original_votes@) as int),
            old(self).in_this_count.elected@.len() == 0 ==> elected_by_quota_above(final(self).transcript.counts@.last().elected@, final(self).transcript.counts@.last().status.tallies.candidate@, final(self).quota),
            final(self).in_this_count.elected@.len() == 0,
            same_surplus_progress(final(self).pending_surplus_distribution, old(self).pending_surplus_distribution),
            final(self).num_candidates == old(self).num_candidates,
            final(self).candidates_to_be_elected == old(self).candidates_to_be_elected,
            final(self).original_votes == old(self).original_votes,
            final(self).excluded_at_start == old(self).excluded_at_start,
    {
        let ghost orig = self.original_votes@;
        let ghost cont = self.continuing_candidates@;
        let ghost n = self.num_candidates as nat;
        let ghost p = total_papers(orig);
        proof {
            assert forall|c: usize| cont.contains(c) implies c < n by {
                lemma_index_in(self.continuing_candidates_sorted_by_tally@, c);
                let k = choose|k: int| 0 <= k < self.continuing_candidates_sorted_by_tally@.len()
                    && self.continuing_candidates_sorted_by_tally@[k] == CandidateIndex(c);
            }
            lemma_distribution_conserves_papers(orig, cont, n);
            assert(reachable_below(orig, cont, n));
        }
        let distributed = DistributedVotes::distribute(self.original_votes, &self.continuing_candidates, self.num_candidates);
        let mut total: usize = 0;
        let ghost start = *self;
        for i in 0..self.num_candidates
            invariant
                self.wf(),
                self.original_votes == start.original_votes,
                self.excluded_at_start == start.excluded_at_start,
                self.continuing_candidates@ == cont,
                self.num_candidates == n,
                self.candidates_to_be_elected == start.candidates_to_be_elected,
                self.transcript.counts == start.transcript.counts,
                self.pending_surplus_distribution == start.pending_surplus_distribution,
                self.exhausted.0 == 0,
                self.exhausted_atl == start.exhausted_atl,
                self.in_this_count.elected == start.in_this_count.elected,
                total == papers_going_to_all(orig, cont, i as nat),
                all_papers(self.papers@) == total,
                forall|c: int| 0 <= c < i ==> (#[trigger] self.tallys@[c]).value() == total_papers(votes_going_to(orig, cont, c))
                    * Rules::Tally::unit(),
                forall|c: int| i <= c < n ==> (#[trigger] self.tallys@[c]).value() == 0,
        {
            let votes = &distributed.by_candidate[i];
            proof {
                lemma_going_to_all_monotone(orig, cont, (i + 1) as nat, n);
                Rules::Tally::lemma_unit_positive();
                let u = Rules::Tally::unit();
                let m = votes.num_ballots.0 as int;
                assert(m <= p);
                assert(m * u <= (p + 1) * u) by (nonlinear_arith)
                    requires
                        m <= p,
                        u >= 1,
                ;
                Rules::SplitByNumber::lemma_key_defined_when_known(self.current_count);
            }
            let tally = Rules::Tally::from_whole(votes.num_ballots.0);
            total = total + votes.num_ballots.0;
            let t = plus_capped(&self.tallys[i], &tally);
            self.tallys.set(i, t);
            self.add_to_papers(i, votes, TransferValue::one(), Some(self.current_count), tally);
        }
        self.exhausted = BallotPaperCount(distributed.exhausted.0);
        proof {
            lemma_distribution_bounded(orig, cont, 0);
        }
        self.exhausted_atl = BallotPaperCount(distributed.exhausted_atl.0);
        self.compute_quota(BallotPaperCount(total));
        self.end_of_count_step(
            ReasonForCount::FirstPreferenceCount,
            PortionOfReasonBeingDoneThisCount { transfer_value: None, when_tv_created: None, papers_came_from_counts: Vec::new() },
            true,
        );
    }
}

/// The parts of the state that moving papers between candidates leaves alone.
pub open spec fn same_candidates<'a, R: PreferenceDistributionRules>(a: PreferenceDistributor<'a, R>, b: PreferenceDistributor<'a, R>) -> bool {
    &&& a.data == b.data
    &&& a.ec_resolutions == b.ec_resolutions
    &&& a.original_votes == b.original_votes
    &&& a.excluded_at_start == b.excluded_at_start
    &&& a.num_candidates == b.num_candidates
    &&& a.candidates_to_be_elected == b.candidates_to_be_elected
    &&& a.quota == b.quota
    &&& a.continuing_candidates@ == b.continuing_candidates@
    &&& a.continuing_candidates_sorted_by_tally == b.continuing_candidates_sorted_by_tally
    &&& a.current_count == b.current_count
    &&& a.pending_surplus_distribution == b.pending_surplus_distribution
    &&& a.elected_candidates == b.elected_candidates
    &&& a.transcript == b.transcript
    &&& a.in_this_count.elected == b.in_this_count.elected
    &&& a.in_this_count.not_continuing == b.in_this_count.not_continuing
    &&& a.in_this_count.decisions == b.in_this_count.decisions
}

/// What a candidate holding tally `before` has after receiving `papers` ballot papers at
/// transfer value `tv`: what the rules say those papers are worth at that value, added (up to
/// the largest tally).
pub open spec fn received_at<R: PreferenceDistributionRules>(before: R::Tally, after: R::Tally, tv: TransferValue, papers: nat) -> bool {
    papers > 0 ==> exists|w: R::Tally|
        #[trigger] call_ensures(R::use_transfer_value, (&tv, BallotPaperCount(papers as usize)), w) && after.value()
            == capped_sum::<R::Tally>(before.value(), w.value())
}

/// After the surplus of candidate `c` in state `old` is transferred at transfer value `tv` to
/// give state `new`: each other candidate holds, besides their own papers, those of `c`'s papers
/// whose next continuing preference is for them, and gained what those are worth at `tv`.
pub open spec fn surplus_received<'a, R: PreferenceDistributionRules>(
    new: PreferenceDistributor<'a, R>,
    old: PreferenceDistributor<'a, R>,
    c: int,
    tv: TransferValue,
) -> bool {
    let given = all_votes_in(old.papers@[c].by_provenance@);
    forall|d: int| 0 <= d < old.num_candidates && d != c ==> {
        &&& #[trigger] papers_in(new.papers@[d].by_provenance@) == papers_in(old.papers@[d].by_provenance@) + total_papers(
            votes_going_to(given, old.continuing_candidates@, d),
        )
        &&& received_at::<R>(old.tallys@[d], new.tallys@[d], tv, total_papers(votes_going_to(given, old.continuing_candidates@, d)))
    }
}

impl<'a, Rules: PreferenceDistributionRules> PreferenceDistributor<'a, Rules> {
    /// Parcel out votes by next continuing candidate with a given transfer value, adding what
    /// they are worth to each candidate's tally (tallies stop at the largest tally). Returns the
    /// number of exhausted papers. The record of the tally lost to rounding (what the votes were
    /// worth before, less what they are worth now) is left as it is where it would pass the
    /// largest tally.
    #[verifier::loop_isolation(false)]
    pub fn parcel_out_votes_with_given_transfer_value(
        &mut self,
        transfer_value: TransferValue,
        ballots: VotesWithSameTransferValue<'a>,
        when_tv_created: Option<CountIndex>,
        original_worth: Rules::Tally,
    ) -> (res: BallotPaperCount)
        requires
            old(self).wf(),
            ballots.wf(),
            transfer_value.wf(),
            all_papers(old(self).papers@) + total_papers(ballots.votes@) + old(self).exhausted.0 <= total_papers(
                old(self).original_votes@,
            ),
        ensures
            final(self).wf(),
            same_candidates(*final(self), *old(self)),
            res.0 == exhausted_papers(ballots.votes@, old(self).continuing_candidates@, false),
            res.0 <= total_papers(ballots.votes@),
            Rules::SplitByNumber::key_defined(when_tv_created) ==> all_papers(final(self).papers@) + final(self).exhausted.0
                == all_papers(old(self).papers@) + old(self).exhausted.0 + total_papers(ballots.votes@),
            Rules::SplitByNumber::key_defined(when_tv_created) ==> forall|c: int|
                0 <= c < old(self).num_candidates ==> #[trigger] papers_in(final(self).papers@[c].by_provenance@) == papers_in(
                    old(self).papers@[c].by_provenance@,
                ) + total_papers(votes_going_to(ballots.votes@, old(self).continuing_candidates@, c)),
            forall|c: int|
                0 <= c < old(self).num_candidates && total_papers(votes_going_to(ballots.votes@, old(self).continuing_candidates@, c)) > 0
                    ==> exists|w: Rules::Tally|
                    #[trigger] call_ensures(
                        Rules::use_transfer_value,
                        (&transfer_value, BallotPaperCount(total_papers(votes_going_to(ballots.votes@, old(self).continuing_candidates@, c)) as usize)),
                        w,
                    ) && final(self).tallys@[c].value() == capped_sum::<Rules::Tally>(old(self).tallys@[c].value(), w.value()),
            final(self).exhausted.0 == old(self).exhausted.0 + res.0,
            forall|c: int| 0 <= c < old(self).num_candidates ==> #[trigger] final(self).tallys@[c].value() >= old(self).tallys@[c].value(),
            forall|c: int|
                0 <= c < old(self).num_candidates && total_papers(votes_going_to(ballots.votes@, old(self).continuing_candidates@, c))
                    == 0 ==> #[trigger] final(self).tallys@[c] == old(self).tallys@[c],
            forall|c: int|
                0 <= c < old(self).num_candidates && total_papers(votes_going_to(ballots.votes@, old(self).continuing_candidates@, c))
                    == 0 ==> #[trigger] final(self).papers@[c] == old(self).papers@[c],
    {
        let ghost b = ballots.votes@;
        let ghost cont = self.continuing_candidates@;
        let ghost n = self.num_candidates as nat;
        let ghost p = total_papers(self.original_votes@);
        let ghost start = *self;
        proof {
            assert forall|c: usize| cont.contains(c) implies c < n by {
                lemma_index_in(self.continuing_candidates_sorted_by_tally@, c);
                let k = choose|k: int| 0 <= k < self.continuing_candidates_sorted_by_tally@.len()
                    && self.continuing_candidates_sorted_by_tally@[k] == CandidateIndex(c);
            }
            lemma_distribution_conserves_papers(b, cont, n);
            lemma_distribution_bounded(b, cont, 0);
            assert(reachable_below(b, cont, n));
        }
        let distributed = DistributedVotes::distribute(&ballots.votes, &self.continuing_candidates, self.num_candidates);
        let mut tally_distributed = Rules::Tally::zero();
        for c in 0..self.num_candidates
            invariant
                self.wf(),
                same_candidates(*self, start),
                self.exhausted == start.exhausted,
                self.exhausted_atl == start.exhausted_atl,
                all_papers(self.papers@) + self.exhausted.0 + total_papers(b) <= p + papers_going_to_all(b, cont, c as nat),
                papers_going_to_all(b, cont, c as nat) <= total_papers(b),
                Rules::SplitByNumber::key_defined(when_tv_created) ==> all_papers(self.papers@) == all_papers(start.papers@)
                    + papers_going_to_all(b, cont, c as nat),
                Rules::SplitByNumber::key_defined(when_tv_created) ==> forall|d: int|
                    0 <= d < c ==> #[trigger] papers_in(self.papers@[d].by_provenance@) == papers_in(start.papers@[d].by_provenance@)
                        + total_papers(votes_going_to(b, cont, d)),
                forall|d: int|
                    0 <= d < c && total_papers(votes_going_to(b, cont, d)) > 0 ==> exists|w: Rules::Tally|
                        #[trigger] call_ensures(
                            Rules::use_transfer_value,
                            (&transfer_value, BallotPaperCount(total_papers(votes_going_to(b, cont, d)) as usize)),
                            w,
                        ) && self.tallys@[d].value() == capped_sum::<Rules::Tally>(start.tallys@[d].value(), w.value()),
                forall|d: int| 0 <= d < n ==> #[trigger] self.tallys@[d].value() >= start.tallys@[d].value(),
                forall|d: int|
                    (c <= d < n || (0 <= d < n && total_papers(votes_going_to(b, cont, d)) == 0)) ==> #[trigger] self.tallys@[d]
                        == start.tallys@[d],
                forall|d: int|
                    (c <= d < n || (0 <= d < n && total_papers(votes_going_to(b, cont, d)) == 0)) ==> #[trigger] self.papers@[d]
                        == start.papers@[d],
        {
            let cb = &distributed.by_candidate[c];
            proof {
                lemma_going_to_all_monotone(b, cont, (c + 1) as nat, n);
                Rules::Tally::lemma_bounded(self.tallys@[c as int]);
            }
            let ghost before = *self;
            assert(cb.num_ballots.0 == total_papers(votes_going_to(b, cont, c as int)));
            if cb.num_ballots.0 > 0 {
                let use_tv = Rules::use_transfer_value;
                let worth = use_tv(&transfer_value, cb.num_ballots);
                let t = plus_capped(&self.tallys[c], &worth);
                self.tallys.set(c, t);
                tally_distributed = plus_capped(&tally_distributed, &worth);
                self.add_to_papers(c, cb, transfer_value, when_tv_created, worth);
            }
            assert forall|d: int|
                (c + 1 <= d < n || (0 <= d < n && total_papers(votes_going_to(b, cont, d)) == 0)) implies #[trigger] self.tallys@[d]
                    == start.tallys@[d] by {
                if d != c {
                    assert(self.tallys@[d] == before.tallys@[d]);
                }
            }
            assert forall|d: int|
                (c + 1 <= d < n || (0 <= d < n && total_papers(votes_going_to(b, cont, d)) == 0)) implies #[trigger] self.papers@[d]
                    == start.papers@[d] by {
                if d != c {
                    assert(self.papers@[d] == before.papers@[d]);
                }
            }
        }
        if distributed.exhausted.0 > 0 {
            let worth = Rules::use_transfer_value(&transfer_value, distributed.exhausted);
            self.tally_exhausted = plus_capped(&self.tally_exhausted, &worth);
            tally_distributed = plus_capped(&tally_distributed, &worth);
            self.exhausted = BallotPaperCount(self.exhausted.0 + distributed.exhausted.0);
            self.exhausted_atl = BallotPaperCount(self.exhausted_atl.0 + distributed.exhausted_atl.0);
        }
        if fits(&self.tally_lost_to_rounding.value, &original_worth) {
            self.tally_lost_to_rounding.add_assign(original_worth);
        }
        if fits(&self.tally_lost_to_rounding.value, &tally_distributed) {
            self.tally_lost_to_rounding.sub_assign(tally_distributed);
        }
        distributed.exhausted
    }

    /// Transfer the surplus of an elected candidate using a single transfer value (the surplus
    /// divided by the candidate's papers), as for the Federal and Victorian rules; the
    /// candidate's tally becomes the quota. A candidate without papers has nothing to transfer
    /// (the transfer value is then recorded as one). Returns where the papers came from.
    pub fn distribute_surplus_all_with_same_transfer_value(&mut self, candidate_to_distribute: CandidateIndex) -> (res: PortionOfReasonBeingDoneThisCount)
        requires
            old(self).wf(),
            candidate_to_distribute.0 < old(self).num_candidates,
            !old(self).continuing_candidates@.contains(candidate_to_distribute.0),
        ensures
            final(self).wf(),
            final(self).tallys@[candidate_to_distribute.0 as int] == old(self).quota,
            final(self).papers@[candidate_to_distribute.0 as int].by_provenance@.len() == 0,
            final(self).continuing_candidates_sorted_by_tally == old(self).continuing_candidates_sorted_by_tally,
            final(self).pending_surplus_distribution == old(self).pending_surplus_distribution,
            final(self).elected_candidates == old(self).elected_candidates,
            final(self).transcript == old(self).transcript,
            final(self).current_count == old(self).current_count,
            final(self).num_candidates == old(self).num_candidates,
            final(self).candidates_to_be_elected == old(self).candidates_to_be_elected,
            final(self).original_votes == old(self).original_votes,
            final(self).excluded_at_start == old(self).excluded_at_start,
            final(self).ec_resolutions == old(self).ec_resolutions,
            final(self).quota == old(self).quota,
            all_papers(final(self).papers@) + final(self).exhausted.0 == all_papers(old(self).papers@) + old(self).exhausted.0,
            final(self).in_this_count.elected == old(self).in_this_count.elected,
            final(self).in_this_count.created_transfer_value is Some,
            surplus_received(*final(self), *old(self), candidate_to_distribute.0 as int, final(self).in_this_count.created_transfer_value->0.transfer_value),
            final(self).in_this_count.created_transfer_value matches Some(tvc) && surplus_transfer::<Rules>(
                tvc,
                old(self).tallys@[candidate_to_distribute.0 as int],
                old(self).quota,
                papers_in(old(self).papers@[candidate_to_distribute.0 as int].by_provenance@),
            ),
    {
        let c = candidate_to_distribute.0;
        let votes = self.tally(candidate_to_distribute);
        let surplus = minus_floored(&votes, &self.quota);
        let q = self.quota;
        self.tallys.set(c, q);
        let ghost ps = self.papers@;
        let mut pile = self.papers.remove(c);
        proof {
            lemma_all_papers_update(ps, c as int, pile);
        }
        let (_tally, ballots, provenance) = pile.extract_all_ballots_ignoring_transfer_value();
        proof {
            lemma_all_papers_update(ps, c as int, pile);
            assert(ps.remove(c as int).insert(c as int, pile) == ps.update(c as int, pile));
            assert(papers_in(pile.by_provenance@) == 0);
            assert(ballots.num_ballots.0 == total_papers(ballots.votes@));
        }
        self.papers.insert(c, pile);
        let ballots_considered = ballots.num_ballots;
        proof {
            lemma_not_continuing_gets_nothing(ballots.votes@, self.continuing_candidates@, c as int);
        }
        let make = Rules::make_transfer_value;
        let transfer_value = if ballots.num_ballots.0 > 0 {
            make(surplus, ballots.num_ballots)
        } else {
            TransferValue::one()
        };
        proof {
            Rules::SplitByNumber::lemma_key_defined_when_known(self.current_count);
        }
        let ghost before_parcel = *self;
        let exhausted = self.parcel_out_votes_with_given_transfer_value(
            transfer_value,
            ballots,
            Some(self.current_count),
            surplus,
        );
        let continuing_ballots = BallotPaperCount(ballots_considered.0 - exhausted.0);
        proof {
            assert forall|d: int| 0 <= d < old(self).num_candidates && d != c implies #[trigger] papers_in(self.papers@[d].by_provenance@)
                == papers_in(old(self).papers@[d].by_provenance@) + total_papers(
                votes_going_to(ballots.votes@, old(self).continuing_candidates@, d),
            ) && received_at::<Rules>(
                old(self).tallys@[d],
                self.tallys@[d],
                transfer_value,
                total_papers(votes_going_to(ballots.votes@, old(self).continuing_candidates@, d)),
            ) by {
                assert(before_parcel.papers@[d] == old(self).papers@[d]);
                assert(before_parcel.tallys@[d] == old(self).tallys@[d]);
            }
        }
        self.in_this_count.created_transfer_value = Some(
            TransferValueCreation {
                surplus,
                votes,
                excluded_exhausted_tally: None,
                original_transfer_value: None,
                multiplied_transfer_value: None,
                ballots_considered,
                continuing_ballots,
                transfer_value,
            },
        );
        provenance
    }

    /// Distribute the surplus of an elected candidate, as one count.
    pub fn distribute_surplus(&mut self, candidate_to_distribute: CandidateIndex)
        requires
            old(self).wf(),
            candidate_to_distribute.0 < old(self).num_candidates,
            !old(self).continuing_candidates@.contains(candidate_to_distribute.0),
        ensures
            final(self).wf(),
            final(self).work_left() <= old(self).work_left(),
            final(self).transcript.counts@.len() == old(self).transcript.counts@.len() + 1,
            old(self).transcript.counts@.is_prefix_of(final(self).transcript.counts@),
            counts_after_first(final(self).transcript.counts@, old(self).transcript.counts@.len() as int),
            final(self).transcript.counts@.last().reason == ReasonForCount::ExcessDistribution(candidate_to_distribute),
            same_surplus_progress(final(self).pending_surplus_distribution, old(self).pending_surplus_distribution),
            all_papers(final(self).papers@) + final(self).exhausted.0 == all_papers(old(self).papers@) + old(self).exhausted.0,
            count_holds_papers(final(self).transcript.counts@.last(), all_papers(old(self).papers@) + old(self).exhausted.0),
            final(self).quota == old(self).quota,
            final(self).in_this_count.elected@.len() == 0,
            old(self).in_this_count.elected@.len() == 0 ==> elected_by_quota_above(final(self).transcript.counts@.last().elected@, final(self).transcript.counts@.last().status.tallies.candidate@, final(self).quota),
            final(self).transcript.counts@.last().created_transfer_value is Some,
            surplus_received(
                *final(self),
                *old(self),
                candidate_to_distribute.0 as int,
                final(self).transcript.counts@.last().created_transfer_value->0.transfer_value,
            ),
            final(self).transcript.counts@.last().created_transfer_value matches Some(tvc) && surplus_transfer::<Rules>(
                tvc,
                old(self).tallys@[candidate_to_distribute.0 as int],
                old(self).quota,
                papers_in(old(self).papers@[candidate_to_distribute.0 as int].by_provenance@),
            ),
            final(self).num_candidates == old(self).num_candidates,
            final(self).candidates_to_be_elected == old(self).candidates_to_be_elected,
            final(self).original_votes == old(self).original_votes,
            final(self).excluded_at_start == old(self).excluded_at_start,
            final(self).ec_resolutions == old(self).ec_resolutions,
            final(self).elected_candidates@.len() >= old(self).elected_candidates@.len(),
            final(self).elected_candidates@.take(old(self).elected_candidates@.len() as int) == old(self).elected_candidates@,
    {
        let provenance = self.distribute_surplus_all_with_same_transfer_value(candidate_to_distribute);
        let ghost mid = *self;
        self.end_of_count_step(ReasonForCount::ExcessDistribution(candidate_to_distribute), provenance, true);
        proof {
            let c = candidate_to_distribute.0 as int;
            let tv = mid.in_this_count.created_transfer_value->0.transfer_value;
            let given = all_votes_in(old(self).papers@[c].by_provenance@);
            assert forall|d: int| 0 <= d < old(self).num_candidates && d != c implies {
                &&& #[trigger] papers_in(self.papers@[d].by_provenance@) == papers_in(old(self).papers@[d].by_provenance@) + total_papers(
                    votes_going_to(given, old(self).continuing_candidates@, d),
                )
                &&& received_at::<Rules>(old(self).tallys@[d], self.tallys@[d], tv, total_papers(votes_going_to(given, old(self).continuing_candidates@, d)))
            } by {
                assert(papers_in(mid.papers@[d].by_provenance@) == papers_in(old(self).papers@[d].by_provenance@) + total_papers(
                    votes_going_to(given, old(self).continuing_candidates@, d),
                ));
                assert(self.papers@[d] == mid.papers@[d]);
                assert(self.tallys@[d] == mid.tallys@[d]);
            }
        }
    }
}

/// A candidate who is not continuing gets no votes.
proof fn lemma_not_continuing_gets_nothing(votes: Seq<PartiallyDistributedVote>, continuing: Set<usize>, c: int)
    requires
        !continuing.contains(c as usize),
        0 <= c,
    ensures
        votes_going_to(votes, continuing, c).len() == 0,
        total_papers(votes_going_to(votes, continuing, c)) == 0,
    decreases votes.len(),
{
    if votes.len() > 0 {
        lemma_not_continuing_gets_nothing(votes.drop_last(), continuing, c);
        let x = votes.last();
        match next_spec(x, continuing) {
            Some(m) => {
                lemma_first_continuing_from(x.prefs@, x.upto as int, continuing);
                let i = first_continuing_from(x.prefs@, x.upto as int, continuing)->0;
                assert(x.prefs@.len() <= usize::MAX) by {
                    broadcast use vstd::slice::axiom_spec_len;
                    assert(x.prefs.len() as int == x.prefs@.len());
                }
                assert(m.upto as int == i);
                assert(continuing.contains(current_candidate(m)));
            },
            None => {},
        }
    }
}

/// Removing a candidate that occurs once shortens a list by one.
proof fn lemma_without_len_exact(s: Seq<CandidateIndex>, c: CandidateIndex)
    requires
        s.contains(c),
        !has_repeats(s),
    ensures
        without(s, c).len() + 1 == s.len(),
    decreases s.len(),
{
    let p = s.drop_last();
    assert(!has_repeats(p)) by {
        if has_repeats(p) {
            let (i, j) = choose|i: int, j: int| 0 <= i < j < p.len() && p[i] == p[j];
            assert(s[i] == s[j]);
        }
    }
    if s.last() == c {
        assert(!p.contains(c)) by {
            if p.contains(c) {
                let k = choose|k: int| 0 <= k < p.len() && p[k] == c;
                assert(s[k] == s[s.len() - 1]);
            }
        }
        lemma_without_absent(p, c);
    } else {
        let k = choose|k: int| 0 <= k < s.len() && s[k] == c;
        assert(p[k] == c);
        lemma_without_len_exact(p, c);
    }
}

/// True iff some key in the list is the given one.
fn contains_key<S: HowSplitByCountNumber>(keys: &Vec<ProvenanceKey<S::KeyToDivide>>, key: &ProvenanceKey<S::KeyToDivide>) -> (res: bool)
    ensures
        res == exists|i: int| 0 <= i < keys@.len() && keys@[i].0 == key.0 && same_value(keys@[i].1, key.1),
{
    for i in 0..keys.len()
        invariant
            forall|j: int| 0 <= j < i ==> !(keys@[j].0 == key.0 && same_value(keys@[j].1, key.1)),
    {
        if S::same_key(&keys[i].0, &key.0) && keys[i].1.same_as(&key.1) {
            return true;
        }
    }
    false
}

/// A transfer value at least as large as a second, itself at least as large as a third, is at
/// least as large as the third.
proof fn lemma_not_less_transitive(a: TransferValue, b: TransferValue, c: TransferValue)
    requires
        a.wf(),
        b.wf(),
        c.wf(),
        !less_value(a, b),
        !less_value(b, c),
    ensures
        !less_value(a, c),
{
    let (an, ad, bn, bd, cn, cd) = (a.numerator as int, a.denominator as int, b.numerator as int, b.denominator as int, c.numerator as int, c.denominator as int);
    assert(an * cd >= cn * ad) by (nonlinear_arith)
        requires
            an * bd >= bn * ad,
            bn * cd >= cn * bd,
            ad > 0,
            bd > 0,
            cd > 0,
            an >= 0,
            bn >= 0,
            cn >= 0,
    ;
}

/// Order keys by transfer value, highest first, keeping the order of keys with equal transfer
/// values.
fn sort_keys_by_transfer_value_descending<K>(keys: &mut Vec<ProvenanceKey<K>>)
    requires
        forall|i: int| 0 <= i < old(keys)@.len() ==> (#[trigger] old(keys)@[i]).1.wf(),
    ensures
        final(keys)@.len() == old(keys)@.len(),
        final(keys)@.to_multiset() == old(keys)@.to_multiset(),
        forall|i: int| 0 <= i < final(keys)@.len() ==> (#[trigger] final(keys)@[i]).1.wf(),
        forall|i: int, j: int| 0 <= i < j < final(keys)@.len() ==> !less_value(#[trigger] final(keys)@[i].1, #[trigger] final(keys)@[j].1),
{
    let len = keys.len();
    if len == 0 {
        return;
    }
    let ghost orig = keys@;
    let mut i: usize = 1;
    while i < len
        invariant
            1 <= i <= len,
            keys@.len() == len,
            keys@.to_multiset() == orig.to_multiset(),
            forall|a: int| 0 <= a < len ==> (#[trigger] keys@[a]).1.wf(),
            forall|a: int, b: int| 0 <= a < b < i ==> !less_value(#[trigger] keys@[a].1, #[trigger] keys@[b].1),
        decreases len - i,
    {
        let mut j: usize = i;
        while j > 0 && keys[j - 1].1.less_than(&keys[j].1)
            invariant
                0 <= j <= i < len,
                keys@.len() == len,
                keys@.to_multiset() == orig.to_multiset(),
                forall|a: int| 0 <= a < len ==> (#[trigger] keys@[a]).1.wf(),
                forall|a: int, b: int| 0 <= a < b <= i && a != j && b != j ==> !less_value(#[trigger] keys@[a].1, #[trigger] keys@[b].1),
                forall|b: int| j < b <= i ==> less_value(#[trigger] keys@[b].1, keys@[j as int].1),
            decreases j,
        {
            let ghost before = keys@;
            proof {
                crate::util::lemma_swap_multiset(before, j - 1, j as int);
            }
            let x = keys.remove(j - 1);
            keys.insert(j, x);
            assert(keys@ =~= before.update(j - 1, before[j as int]).update(j as int, before[j - 1]));
            j = j - 1;
        }
        proof {
            assert forall|a: int, b: int| 0 <= a < b < i + 1 implies !less_value(#[trigger] keys@[a].1, #[trigger] keys@[b].1) by {
                if b == j {
                    if j > 0 && a < j - 1 {
                        lemma_not_less_transitive(keys@[a].1, keys@[j - 1].1, keys@[j as int].1);
                    }
                } else if a == j {
                } else {
                }
            }
        }
        i = i + 1;
    }
}

/// Under the rules' division of papers into parcels, every parcel has a key, whether or not
/// it is known when its transfer value was created.
pub open spec fn parcels_always_keyed<S: HowSplitByCountNumber>() -> bool {
    forall|w: Option<CountIndex>| #[trigger] S::key_defined(w)
}

impl<'a, Rules: PreferenceDistributionRules> PreferenceDistributor<'a, Rules> {
    /// Find the candidate to exclude: the lowest in the poll, after resolving a tie for the
    /// lowest as the rules say.
    pub fn find_lowest_candidate(&mut self) -> (res: Vec<CandidateIndex>)
        requires
            old(self).wf(),
            old(self).continuing_candidates_sorted_by_tally@.len() > 0,
        ensures
            final(self).wf(),
            same_but_decisions(*final(self), *old(self)),
            res@.len() == 1,
            old(self).continuing_candidates_sorted_by_tally@.contains(res@[0]),
            old(self).tallys@[res@[0].0 as int].value() == old(self).tallys@[old(self).continuing_candidates_sorted_by_tally@[0].0 as int].value(),
            lowest_tied(old(self).continuing_candidates_sorted_by_tally@, old(self).tallys@).contains(res@[0]),
            exists|how: MethodOfTieResolution|
                #[trigger] call_ensures(Rules::resolve_ties_choose_lowest_candidate_for_exclusion, (), how) && forall|k: int, c: CandidateIndex|
                    lowest_tied(old(self).continuing_candidates_sorted_by_tally@, old(self).tallys@).len() >= 2 && countback_resolves_at(
                        how,
                        old(self).transcript.counts@,
                        lowest_tied(old(self).continuing_candidates_sorted_by_tally@, old(self).tallys@),
                        k,
                    ) && lowest_tied(old(self).continuing_candidates_sorted_by_tally@, old(self).tallys@).contains(c)
                        ==> #[trigger] old(self).transcript.counts@[k].status.tallies.candidate@[res@[0].0 as int].value()
                        <= #[trigger] old(self).transcript.counts@[k].status.tallies.candidate@[c.0 as int].value(),
    {
        broadcast use vstd::seq_lib::group_to_multiset_ensures;
        let ghost sorted = self.continuing_candidates_sorted_by_tally@;
        let lowest = self.tally(self.continuing_candidates_sorted_by_tally[0]);
        let len = self.continuing_candidates_sorted_by_tally.len();
        let mut k: usize = 1;
        while k < len && self.tally(self.continuing_candidates_sorted_by_tally[k]).is_same(&lowest)
            invariant
                self.wf(),
                1 <= k <= len,
                len == sorted.len(),
                sorted == self.continuing_candidates_sorted_by_tally@,
                lowest == self.tallys@[sorted[0].0 as int],
                forall|i: int| 0 <= i < k ==> #[trigger] self.tallys@[sorted[i].0 as int].value() == lowest.value(),
                lowest_run_end(sorted, self.tallys@, 1) == lowest_run_end(sorted, self.tallys@, k as int),
            decreases len - k,
        {
            k = k + 1;
        }
        let mut possibilities = copy_range(&self.continuing_candidates_sorted_by_tally, 0, k);
        proof {
            lemma_subrange_distinct(sorted, 0, k as int);
            assert forall|i: int| 0 <= i < possibilities@.len() implies (#[trigger] possibilities@[i]).0 < self.num_candidates by {
                assert(possibilities@[i] == sorted[i]);
            }
        }
        let ghost before = possibilities@;
        let ghost start = *self;
        proof {
            assert(lowest_run_end(sorted, self.tallys@, k as int) == k);
            assert(before =~= lowest_tied(sorted, self.tallys@));
            assert(all_tied(before, self.tallys@)) by {
                assert forall|i: int| 0 <= i < before.len() implies #[trigger] self.tallys@[before[i].0 as int].value()
                    == self.tallys@[before[0].0 as int].value() by {
                    assert(before[i] == sorted[i]);
                    assert(before[0] == sorted[0]);
                }
            }
        }
        let choose_how = Rules::resolve_ties_choose_lowest_candidate_for_exclusion;
        let how = choose_how();
        self.check_for_ties_and_resolve(
            &mut possibilities,
            how,
            TieResolutionGranularityNeeded::LowestSeparated(1),
            TieResolutionUsage::Exclusion,
        );
        let first = possibilities[0];
        proof {
            assert(possibilities@.contains(first));
            assert(before.to_multiset().count(first) > 0);
            assert(before.contains(first));
            let a = choose|a: int| 0 <= a < before.len() && before[a] == first;
            assert(before[a] == sorted[a]);
            assert(self.tallys@[before[0].0 as int].value() == self.tallys@[first.0 as int].value());
            assert forall|kk: int, c: CandidateIndex|
                before.len() >= 2 && countback_resolves_at(
                    how,
                    start.transcript.counts@,
                    before,
                    kk,
                ) && before.contains(c) implies #[trigger] start.transcript.counts@[kk].status.tallies.candidate@[first.0 as int].value()
                <= #[trigger] start.transcript.counts@[kk].status.tallies.candidate@[c.0 as int].value() by {
                assert(before.to_multiset().count(c) > 0);
                assert(possibilities@.to_multiset().count(c) > 0);
                assert(possibilities@.contains(c));
                let j = choose|j: int| 0 <= j < possibilities@.len() && possibilities@[j] == c;
                assert(sorted_by_key(possibilities@, start.transcript.counts@[kk].status.tallies.candidate@));
                if j > 0 {
                    assert(possibilities@[0] == first);
                }
            }
        }
        let mut res: Vec<CandidateIndex> = Vec::new();
        res.push(first);
        res
    }

    /// Take the papers with the given key (parcel and transfer value) from each of the
    /// candidates, reducing their tallies by what the papers were worth (to no less than zero).
    /// Gives the papers, what they were worth (stopping at the largest tally), when their
    /// transfer value was created if that is the same for all of them, and the counts they were
    /// received in.
    #[verifier::loop_isolation(false)]
    #[verifier::rlimit(40)]
    fn extract_parcel(
        &mut self,
        candidates: &Vec<CandidateIndex>,
        key: &ProvenanceKey<<Rules::SplitByNumber as HowSplitByCountNumber>::KeyToDivide>,
    ) -> (res: (VotesWithSameTransferValue<'a>, Rules::Tally, Option<CountIndex>, Vec<CountIndex>))
        requires
            old(self).wf(),
            all_below(candidates@, old(self).num_candidates as nat),
        ensures
            final(self).wf(),
            res.0.wf(),
            all_papers(final(self).papers@) + total_papers(res.0.votes@) == all_papers(old(self).papers@),
            same_but_papers_and_tallies(*final(self), *old(self)),
            ({
                let (piles, found) = parcel_taken(piles_view(old(self).papers@), candidates@, *key);
                &&& piles_view(final(self).papers@) == piles
                &&& tally_values(final(self).tallys@) == tallies_taken(
                    tally_values(old(self).tallys@),
                    piles_view(old(self).papers@),
                    candidates@,
                    *key,
                )
                &&& res.0.votes@ == votes_of_piles(found)
                &&& res.1.value() == capped_total::<Rules::Tally>(found)
                &&& res.2 == match detect_after(whens_of_piles(found)).res {
                    Some(w) => w,
                    None => None,
                }
                &&& res.3@.to_set() == counts_of_piles(found)
                &&& increasing_keys(res.3@)
            }),
    {
        let ghost start = *self;
        let ghost pv0 = piles_view(start.papers@);
        let ghost tv0 = tally_values(start.tallys@);
        let mut all_votes = VotesWithSameTransferValue::default();
        let mut have_votes = false;
        let mut original_worth = Rules::Tally::zero();
        let mut tv_when: DetectUnique<Option<CountIndex>> = DetectUnique::default();
        let mut counts: CollectAll<CountIndex> = CollectAll::default();
        assert(candidates@.take(0) =~= Seq::<CandidateIndex>::empty());
        assert(counts.collected() =~= Set::<CountIndex>::empty());
        for i in 0..candidates.len()
            invariant
                self.wf(),
                same_but_papers_and_tallies(*self, start),
                all_votes.wf(),
                all_papers(self.papers@) + total_papers(all_votes.votes@) == all_papers(start.papers@),
                distinct(counts.all@),
                piles_view(self.papers@) == parcel_taken(pv0, candidates@.take(i as int), *key).0,
                tally_values(self.tallys@) == tallies_taken(tv0, pv0, candidates@.take(i as int), *key),
                all_votes.votes@ == votes_of_piles(parcel_taken(pv0, candidates@.take(i as int), *key).1),
                have_votes == (parcel_taken(pv0, candidates@.take(i as int), *key).1.len() > 0),
                original_worth.value() == capped_total::<Rules::Tally>(parcel_taken(pv0, candidates@.take(i as int), *key).1),
                tv_when == detect_after(whens_of_piles(parcel_taken(pv0, candidates@.take(i as int), *key).1)),
                counts.collected() == counts_of_piles(parcel_taken(pv0, candidates@.take(i as int), *key).1),
        {
            let c = candidates[i].0;
            let ghost pre = candidates@.take(i as int);
            let ghost (q, found) = parcel_taken(pv0, pre, *key);
            assert(candidates@.take(i + 1).drop_last() =~= pre);
            assert(candidates@.take(i + 1).last() == candidates@[i as int]);
            let ghost ps = self.papers@;
            let ghost ts = self.tallys@;
            let mut pile = self.papers.remove(c);
            let ghost old_pile = pile;
            assert(old_pile.by_provenance@ == q[c as int]);
            let got = pile.extract_all_ballots_with_given_provenance(key);
            proof {
                lemma_all_papers_update(ps, c as int, old_pile);
                lemma_all_papers_update(ps, c as int, pile);
                assert(ps.remove(c as int).insert(c as int, pile) == ps.update(c as int, pile));
                match find_pile(old_pile.by_provenance@, key.0, key.1) {
                    Some(j) => {
                        lemma_find_pile_in_range(old_pile.by_provenance@, key.0, key.1);
                        lemma_papers_in_remove(old_pile.by_provenance@, j);
                        assert(old_pile.by_provenance@[j].1.1.wf());
                    },
                    None => {},
                }
            }
            self.papers.insert(c, pile);
            assert(self.papers@ == ps.update(c as int, pile));
            assert(piles_view(self.papers@) =~= q.update(c as int, pile.by_provenance@));
            match got {
                Some((from, votes)) => {
                    let ghost fj = find_pile(q[c as int], key.0, key.1)->0;
                    assert(q[c as int][fj].1 == (from, votes));
                    assert(found.push((from, votes)).drop_last() =~= found);
                    proof {
                        let ws = whens_of_piles(found.push((from, votes)));
                        assert(ws =~= whens_of_piles(found).push(from.when_tv_created));
                        assert(ws.drop_last() =~= whens_of_piles(found));
                        assert(ws.last() == from.when_tv_created);
                    }
                    tv_when.add(from.when_tv_created);
                    original_worth = plus_capped(&original_worth, &from.tally);
                    let from_counts = &from.counts_comes_from.all;
                    let ghost counts_before = counts.collected();
                    for j in 0..from_counts.len()
                        invariant
                            distinct(counts.all@),
                            counts.collected() == counts_before.union(from_counts@.take(j as int).to_set()),
                    {
                        counts.add(from_counts[j]);
                        assert(from_counts@.take(j + 1).to_set() =~= from_counts@.take(j as int).to_set().insert(from_counts@[j as int])) by {
                            assert(from_counts@.take(j + 1) =~= from_counts@.take(j as int).push(from_counts@[j as int]));
                            from_counts@.take(j as int).lemma_push_to_set_commute(from_counts@[j as int]);
                        }
                        assert(counts.collected() =~= counts_before.union(from_counts@.take(j + 1).to_set()));
                    }
                    assert(from_counts@.take(from_counts@.len() as int) =~= from_counts@);
                    let t = minus_floored(&self.tallys[c], &from.tally);
                    self.tallys.set(c, t);
                    assert(tally_values(self.tallys@) =~= tally_values(ts).update(c as int, floor_minus(tally_values(ts)[c as int], from.tally.value())));
                    if !have_votes {
                        proof {
                            assert(found.len() == 0);
                            assert(votes_of_piles(found) =~= Seq::<PartiallyDistributedVote<'a>>::empty());
                            assert(votes_of_piles(found.push((from, votes))) =~= votes.votes@);
                        }
                        all_votes = votes;
                        have_votes = true;
                    } else {
                        proof {
                            crate::ballot_pile::lemma_totals_concat(all_votes.votes@, votes.votes@);
                        }
                        all_votes.add(&votes.votes);
                    }
                },
                None => {},
            }
        }
        assert(candidates@.take(candidates@.len() as int) =~= candidates@);
        let when_tv_created = match tv_when.take() {
            Some(w) => w,
            None => None,
        };
        (all_votes, original_worth, when_tv_created, counts.take())
    }

    /// Exclude the given candidates, transferring their papers to the continuing candidates:
    /// one count for each parcel (by the rules' division of papers) and transfer value, highest
    /// transfer value first. If the rules say that candidates are elected as soon as who is
    /// excluded is known, and that now applies, no papers are transferred.
    #[verifier::loop_isolation(false)]
    pub fn exclude(&mut self, candidates_to_exclude: Vec<CandidateIndex>)
        requires
            old(self).wf(),
            all_below(candidates_to_exclude@, old(self).num_candidates as nat),
            candidates_to_exclude@.len() > 0,
            old(self).continuing_candidates_sorted_by_tally@.contains(candidates_to_exclude@[0]),
        ensures
            final(self).wf(),
            final(self).work_left() < old(self).work_left(),
            final(self).transcript.counts@.len() >= old(self).transcript.counts@.len(),
            old(self).transcript.counts@.is_prefix_of(final(self).transcript.counts@),
            counts_after_first(final(self).transcript.counts@, old(self).transcript.counts@.len() as int),
            forall|k: int|
                old(self).transcript.counts@.len() <= k < final(self).transcript.counts@.len() ==> eliminates((#[trigger] final(self).transcript.counts@[k]).reason, candidates_to_exclude@),
            same_surplus_progress(final(self).pending_surplus_distribution, old(self).pending_surplus_distribution),
            final(self).num_candidates == old(self).num_candidates,
            final(self).candidates_to_be_elected == old(self).candidates_to_be_elected,
            final(self).original_votes == old(self).original_votes,
            final(self).excluded_at_start == old(self).excluded_at_start,
            final(self).ec_resolutions == old(self).ec_resolutions,
            final(self).elected_candidates@.len() >= old(self).elected_candidates@.len(),
            final(self).elected_candidates@.take(old(self).elected_candidates@.len() as int) == old(self).elected_candidates@,
            forall|i: int| 0 <= i < candidates_to_exclude@.len() ==> !final(self).continuing_candidates_sorted_by_tally@.contains(#[trigger] candidates_to_exclude@[i]),
            parcels_always_keyed::<Rules::SplitByNumber>() ==> all_papers(final(self).papers@) + final(self).exhausted.0
                == all_papers(old(self).papers@) + old(self).exhausted.0,
            forall|k: int|
                old(self).transcript.counts@.len() <= k < final(self).transcript.counts@.len() ==> (parcels_always_keyed::<Rules::SplitByNumber>()
                    ==> count_holds_papers(#[trigger] final(self).transcript.counts@[k], all_papers(old(self).papers@) + old(self).exhausted.0)),
            final(self).quota == old(self).quota,
            old(self).in_this_count.elected@.len() == 0 ==> final(self).in_this_count.elected@.len() == 0,
            forall|k: int|
                old(self).transcript.counts@.len() <= k < final(self).transcript.counts@.len() ==> (old(self).in_this_count.elected@.len() == 0
                    ==> elected_by_quota_above(
                    (#[trigger] final(self).transcript.counts@[k]).elected@,
                    final(self).transcript.counts@[k].status.tallies.candidate@,
                    final(self).quota,
                )),
    {
        let ghost start = *self;
        let ghost n = self.num_candidates as nat;
        let list_len = candidates_to_exclude.len();
        for i in 0..list_len
            invariant
                self.wf(),
                self.num_candidates == start.num_candidates,
                self.candidates_to_be_elected == start.candidates_to_be_elected,
                self.original_votes == start.original_votes,
                self.excluded_at_start == start.excluded_at_start,
                self.ec_resolutions == start.ec_resolutions,
                self.transcript == start.transcript,
                self.elected_candidates == start.elected_candidates,
                self.pending_surplus_distribution == start.pending_surplus_distribution,
                self.papers == start.papers,
                self.exhausted == start.exhausted,
                self.quota == start.quota,
                self.in_this_count.elected == start.in_this_count.elected,
                i > 0 ==> self.work_left() < start.work_left(),
                i == 0 ==> self.continuing_candidates_sorted_by_tally == start.continuing_candidates_sorted_by_tally,
                self.work_left() <= start.work_left(),
                forall|j: int| 0 <= j < i ==> !self.continuing_candidates_sorted_by_tally@.contains(#[trigger] candidates_to_exclude@[j]),
        {
            let c = candidates_to_exclude[i];
            let ghost before = self.continuing_candidates_sorted_by_tally@;
            self.no_longer_continuing(c, false);
            proof {
                lemma_without(before, c, n);
                lemma_without_len(before, c);
                if i == 0 {
                    lemma_without_len_exact(before, c);
                }
            }
        }
        let remaining = self.remaining_to_elect();
        let sorted_len = self.continuing_candidates_sorted_by_tally.len();
        let ghost after_removal = *self;
        if (Rules::when_to_check_if_all_remaining_should_get_elected()
            == WhenToDoElectCandidateClauseChecking::AfterDeterminingWhoToExcludeButBeforeTransferringAnyPapers && sorted_len
            == remaining) || (Rules::when_to_check_if_just_two_standing_for_shortcut_election()
            == WhenToDoElectCandidateClauseChecking::AfterDeterminingWhoToExcludeButBeforeTransferringAnyPapers && sorted_len == 2
            && remaining == 1) {
            let list = copy_range(&candidates_to_exclude, 0, list_len);
            assert(list@ =~= candidates_to_exclude@);
            let ghost before_count = self.transcript.counts@;
            self.end_of_count_step(
                ReasonForCount::Elimination(list),
                PortionOfReasonBeingDoneThisCount { transfer_value: None, when_tv_created: None, papers_came_from_counts: Vec::new() },
                false,
            );
            assert(self.transcript.counts@.len() == before_count.len() + 1);
            return;
        }
        let mut provenances: Vec<ProvenanceKey<<Rules::SplitByNumber as HowSplitByCountNumber>::KeyToDivide>> = Vec::new();
        for i in 0..list_len
            invariant
                self.wf(),
                *self == after_removal,
                forall|a: int| 0 <= a < provenances@.len() ==> (#[trigger] provenances@[a]).1.wf(),
        {
            let c = candidates_to_exclude[i].0;
            let keys = self.papers[c].get_all_provenance_keys();
            proof {
                assert(piles_wf(self.papers@[c as int].by_provenance@));
            }
            for j in 0..keys.len()
                invariant
                    forall|a: int| 0 <= a < provenances@.len() ==> (#[trigger] provenances@[a]).1.wf(),
            {
                let key = &keys[j];
                proof {
                    assert(keys@[j as int].1 == self.papers@[c as int].by_provenance@[j as int].0.1);
                }
                if !contains_key::<Rules::SplitByNumber>(&provenances, key) {
                    provenances.push((Rules::SplitByNumber::copy_key(&key.0), key.1));
                }
            }
        }
        sort_keys_by_transfer_value_descending(&mut provenances);
        let mut togo = provenances.len();
        let mut k: usize = 0;
        while k < provenances.len()
            invariant
                self.wf(),
                self.num_candidates == start.num_candidates,
                self.candidates_to_be_elected == start.candidates_to_be_elected,
                self.original_votes == start.original_votes,
                self.excluded_at_start == start.excluded_at_start,
                self.ec_resolutions == start.ec_resolutions,
                self.work_left() <= after_removal.work_left(),
                after_removal.work_left() < start.work_left(),
                self.transcript.counts@.len() >= start.transcript.counts@.len(),
                start.transcript.counts@.is_prefix_of(self.transcript.counts@),
                counts_after_first(self.transcript.counts@, start.transcript.counts@.len() as int),
                forall|q: int|
                    start.transcript.counts@.len() <= q < self.transcript.counts@.len() ==> eliminates((#[trigger] self.transcript.counts@[q]).reason, candidates_to_exclude@),
                same_surplus_progress(self.pending_surplus_distribution, start.pending_surplus_distribution),
                self.elected_candidates@.len() >= start.elected_candidates@.len(),
                self.elected_candidates@.take(start.elected_candidates@.len() as int) == start.elected_candidates@,
                togo + k == provenances@.len(),
                parcels_always_keyed::<Rules::SplitByNumber>() ==> all_papers(self.papers@) + self.exhausted.0
                    == all_papers(start.papers@) + start.exhausted.0,
                forall|q: int|
                    start.transcript.counts@.len() <= q < self.transcript.counts@.len() ==> (parcels_always_keyed::<Rules::SplitByNumber>()
                        ==> count_holds_papers(#[trigger] self.transcript.counts@[q], all_papers(start.papers@) + start.exhausted.0)),
                self.quota == start.quota,
                start.in_this_count.elected@.len() == 0 ==> self.in_this_count.elected@.len() == 0,
                forall|q: int|
                    start.transcript.counts@.len() <= q < self.transcript.counts@.len() ==> (start.in_this_count.elected@.len() == 0
                        ==> elected_by_quota_above(
                        (#[trigger] self.transcript.counts@[q]).elected@,
                        self.transcript.counts@[q].status.tallies.candidate@,
                        self.quota,
                    )),
                forall|a: int| 0 <= a < provenances@.len() ==> (#[trigger] provenances@[a]).1.wf(),
                forall|j: int| 0 <= j < list_len ==> !self.continuing_candidates_sorted_by_tally@.contains(#[trigger] candidates_to_exclude@[j]),
            decreases provenances@.len() - k,
        {
            let key = &provenances[k];
            let (all_votes, original_worth, when_tv_created, counts) = self.extract_parcel(&candidates_to_exclude, key);
            proof {
                if parcels_always_keyed::<Rules::SplitByNumber>() {
                    assert(Rules::SplitByNumber::key_defined(when_tv_created));
                }
            }
            self.parcel_out_votes_with_given_transfer_value(key.1, all_votes, when_tv_created, original_worth);
            togo = togo - 1;
            let list = copy_range(&candidates_to_exclude, 0, list_len);
            assert(list@ =~= candidates_to_exclude@);
            let ghost before_count = *self;
            self.end_of_count_step(
                ReasonForCount::Elimination(list),
                PortionOfReasonBeingDoneThisCount { transfer_value: Some(key.1), when_tv_created, papers_came_from_counts: counts },
                togo == 0,
            );
            proof {
                lemma_prefix_of_prefix(start.transcript.counts@, before_count.transcript.counts@, self.transcript.counts@);
                assert forall|q: int| start.transcript.counts@.len() <= q < self.transcript.counts@.len() implies (#[trigger] self.transcript.counts@[q]).reason is ExcessDistribution
                    || self.transcript.counts@[q].reason is Elimination by {
                    if q < before_count.transcript.counts@.len() {
                        assert(self.transcript.counts@[q] == self.transcript.counts@.drop_last()[q]);
                    }
                }
                assert forall|q: int|
                    start.transcript.counts@.len() <= q < self.transcript.counts@.len() && start.in_this_count.elected@.len() == 0
                        implies elected_by_quota_above(
                        (#[trigger] self.transcript.counts@[q]).elected@,
                        self.transcript.counts@[q].status.tallies.candidate@,
                        self.quota,
                    ) by {
                    if q < before_count.transcript.counts@.len() {
                        assert(self.transcript.counts@[q] == self.transcript.counts@.drop_last()[q]);
                    }
                }
                assert forall|q: int|
                    start.transcript.counts@.len() <= q < self.transcript.counts@.len() && parcels_always_keyed::<Rules::SplitByNumber>()
                        implies count_holds_papers(#[trigger] self.transcript.counts@[q], all_papers(start.papers@) + start.exhausted.0) by {
                    if q < before_count.transcript.counts@.len() {
                        assert(self.transcript.counts@[q] == self.transcript.counts@.drop_last()[q]);
                    }
                }
                assert forall|q: int|
                    start.transcript.counts@.len() <= q < self.transcript.counts@.len() implies eliminates((#[trigger] self.transcript.counts@[q]).reason, candidates_to_exclude@) by {
                    if q < before_count.transcript.counts@.len() {
                        assert(self.transcript.counts@[q] == self.transcript.counts@.drop_last()[q]);
                    }
                }
                let a = start.elected_candidates@;
                let b = before_count.elected_candidates@;
                let d = self.elected_candidates@;
                assert(d.take(a.len() as int) =~= a) by {
                    assert(d.take(b.len() as int).take(a.len() as int) =~= d.take(a.len() as int));
                }
            }
            k = k + 1;
            if self.remaining_to_elect() == 0 && !Rules::finish_all_counts_in_elimination_when_all_elected() {
                break;
            }
        }
    }
}

impl<'a, Rules: PreferenceDistributionRules> PreferenceDistributor<'a, Rules> {
    /// Exclude the lowest candidate.
    pub fn distribute_lowest(&mut self)
        requires
            old(self).wf(),
            old(self).continuing_candidates_sorted_by_tally@.len() > 0,
        ensures
            final(self).wf(),
            final(self).work_left() < old(self).work_left(),
            final(self).num_candidates == old(self).num_candidates,
            final(self).candidates_to_be_elected == old(self).candidates_to_be_elected,
            final(self).original_votes == old(self).original_votes,
            final(self).excluded_at_start == old(self).excluded_at_start,
            final(self).ec_resolutions == old(self).ec_resolutions,
            final(self).transcript.counts@.len() >= old(self).transcript.counts@.len(),
            old(self).transcript.counts@.is_prefix_of(final(self).transcript.counts@),
            counts_after_first(final(self).transcript.counts@, old(self).transcript.counts@.len() as int),
            forall|k: int|
                old(self).transcript.counts@.len() <= k < final(self).transcript.counts@.len() ==> excludes_lowest(
                    (#[trigger] final(self).transcript.counts@[k]).reason,
                    old(self).continuing_candidates_sorted_by_tally@,
                    old(self).tallys@,
                ),
            same_surplus_progress(final(self).pending_surplus_distribution, old(self).pending_surplus_distribution),
            parcels_always_keyed::<Rules::SplitByNumber>() ==> all_papers(final(self).papers@) + final(self).exhausted.0
                == all_papers(old(self).papers@) + old(self).exhausted.0,
            forall|k: int|
                old(self).transcript.counts@.len() <= k < final(self).transcript.counts@.len() ==> (parcels_always_keyed::<Rules::SplitByNumber>()
                    ==> count_holds_papers(#[trigger] final(self).transcript.counts@[k], all_papers(old(self).papers@) + old(self).exhausted.0)),
            final(self).quota == old(self).quota,
            old(self).in_this_count.elected@.len() == 0 ==> final(self).in_this_count.elected@.len() == 0,
            forall|k: int|
                old(self).transcript.counts@.len() <= k < final(self).transcript.counts@.len() ==> (old(self).in_this_count.elected@.len() == 0
                    ==> elected_by_quota_above(
                    (#[trigger] final(self).transcript.counts@[k]).elected@,
                    final(self).transcript.counts@[k].status.tallies.candidate@,
                    final(self).quota,
                )),
    {
        let ghost start = *self;
        let candidates_to_exclude = if Rules::should_eliminate_multiple_candidates_federal_rule_13a() {
            match self.find_candidates_for_multiple_elimination_federal_rule_13a() {
                Some(v) => {
                    proof {
                        broadcast use vstd::seq_lib::group_to_multiset_ensures;
                        let now = self.continuing_candidates_sorted_by_tally@;
                        assert(now.to_multiset().len() == old(self).continuing_candidates_sorted_by_tally@.to_multiset().len());
                        assert(v@[0] == now[0]);
                        assert(now.contains(now[0]));
                        assert(now.to_multiset().count(now[0]) > 0);
                        assert(old(self).continuing_candidates_sorted_by_tally@.to_multiset().count(now[0]) > 0);
                        assert(old(self).continuing_candidates_sorted_by_tally@.contains(v@[0]));
                        assert(old(self).tallys@[now[0].0 as int].value() == old(self).tallys@[old(self).continuing_candidates_sorted_by_tally@[0].0 as int].value());
                        assert forall|i: int| 0 <= i < v@.len() implies (#[trigger] v@[i]).0 < self.num_candidates by {
                            assert(v@[i] == now[i]);
                        }
                    }
                    v
                },
                None => self.lowest_candidate_to_exclude(),
            }
        } else {
            self.lowest_candidate_to_exclude()
        };
        let ghost x = candidates_to_exclude@;
        proof {
            broadcast use vstd::seq_lib::group_to_multiset_ensures;
            let sorted = start.continuing_candidates_sorted_by_tally@;
            assert(self.tallys == start.tallys);
            assert(sorted.contains(x[0]));
            assert(start.tallys@[x[0].0 as int].value() == start.tallys@[sorted[0].0 as int].value());
            if sorted_by_key(sorted, start.tallys@) {
                assert forall|i: int| 0 <= i < sorted.len() implies start.tallys@[x[0].0 as int].value()
                    <= #[trigger] start.tallys@[sorted[i].0 as int].value() by {
                    if i > 0 {
                        assert(start.tallys@[sorted[0].0 as int].value() <= start.tallys@[sorted[i].0 as int].value());
                    }
                }
            }
        }
        self.exclude(candidates_to_exclude);
    }

    /// The lowest candidate, as a list to exclude.
    fn lowest_candidate_to_exclude(&mut self) -> (res: Vec<CandidateIndex>)
        requires
            old(self).wf(),
            old(self).continuing_candidates_sorted_by_tally@.len() > 0,
        ensures
            final(self).wf(),
            same_but_decisions(*final(self), *old(self)),
            res@.len() == 1,
            final(self).continuing_candidates_sorted_by_tally@.contains(res@[0]),
            all_below(res@, final(self).num_candidates as nat),
            old(self).tallys@[res@[0].0 as int].value() == old(self).tallys@[old(self).continuing_candidates_sorted_by_tally@[0].0 as int].value(),
    {
        let candidates_to_exclude = self.find_lowest_candidate();
        proof {
            let c = candidates_to_exclude@[0];
            let k = choose|k: int| 0 <= k < old(self).continuing_candidates_sorted_by_tally@.len()
                && old(self).continuing_candidates_sorted_by_tally@[k] == c;
        }
        candidates_to_exclude
    }

    /// Do the whole distribution: the first preferences, then, while there are vacancies to
    /// fill, the pending surplus distributions in the order elected, or else the exclusion of
    /// the lowest candidate. It stops early if no candidate is left to elect or exclude.
    pub fn go(&mut self)
        requires
            old(self).wf(),
            old(self).pending_surplus_distribution.in_hand@ is None,
            all_papers(old(self).papers@) == 0,
            old(self).exhausted.0 == 0,
            forall|c: int| 0 <= c < old(self).num_candidates ==> (#[trigger] old(self).tallys@[c]).value() == 0,
            old(self).in_this_count.elected@.len() == 0,
        ensures
            forall|k: int|
                old(self).transcript.counts@.len() <= k < final(self).transcript.counts@.len() ==> elected_by_quota_above(
                    (#[trigger] final(self).transcript.counts@[k]).elected@,
                    final(self).transcript.counts@[k].status.tallies.candidate@,
                    final(self).quota,
                ),
            final(self).wf(),
            final(self).num_candidates == old(self).num_candidates,
            final(self).candidates_to_be_elected == old(self).candidates_to_be_elected,
            final(self).excluded_at_start == old(self).excluded_at_start,
            final(self).transcript.counts@.len() > 0,
            final(self).elected_candidates@.len() >= final(self).candidates_to_be_elected || (
            final(self).continuing_candidates_sorted_by_tally@.len() == 0 && final(self).pending_surplus_distribution@.len()
                == 0),
            final(self).original_votes == old(self).original_votes,
            final(self).pending_surplus_distribution.in_hand@ is None,
            parcels_always_keyed::<Rules::SplitByNumber>() ==> all_papers(final(self).papers@) + final(self).exhausted.0
                == total_papers(final(self).original_votes@),
            final(self).transcript.counts@.len() > old(self).transcript.counts@.len(),
            forall|k: int|
                old(self).transcript.counts@.len() <= k < final(self).transcript.counts@.len() ==> (parcels_always_keyed::<Rules::SplitByNumber>()
                    ==> count_holds_papers(#[trigger] final(self).transcript.counts@[k], total_papers(final(self).original_votes@) as int)),
            old(self).transcript.counts@.is_prefix_of(final(self).transcript.counts@),
            final(self).transcript.counts@[old(self).transcript.counts@.len() as int].reason == ReasonForCount::FirstPreferenceCount,
            counts_after_first(final(self).transcript.counts@, old(self).transcript.counts@.len() + 1int),
            forall|c: int|
                0 <= c < old(self).num_candidates ==> (#[trigger] final(self).transcript.counts@[old(
                    self,
                ).transcript.counts@.len() as int].status.tallies.candidate@[c]).value() == total_papers(
                    votes_going_to(old(self).original_votes@, old(self).continuing_candidates@, c),
                ) * Rules::Tally::unit(),
    {
        let ghost start = *self;
        self.distribute_first_preferences();
        let ghost first = self.transcript.counts@;
        proof {
            assert(first[start.transcript.counts@.len() as int] == first.last());
        }
        while self.remaining_to_elect() > 0 && (self.pending_surplus_distribution.len() > 0
            || self.continuing_candidates_sorted_by_tally.len() > 0)
            invariant
                self.pending_surplus_distribution.in_hand@ is None,
                first.is_prefix_of(self.transcript.counts@),
                counts_after_first(self.transcript.counts@, first.len() as int),
                self.original_votes == start.original_votes,
                self.wf(),
                self.num_candidates == old(self).num_candidates,
                self.candidates_to_be_elected == old(self).candidates_to_be_elected,
                self.excluded_at_start == old(self).excluded_at_start,
                self.transcript.counts@.len() > 0,
                parcels_always_keyed::<Rules::SplitByNumber>() ==> all_papers(self.papers@) + self.exhausted.0
                    == total_papers(self.original_votes@),
                self.in_this_count.elected@.len() == 0,
                forall|k: int|
                    start.transcript.counts@.len() <= k < self.transcript.counts@.len() ==> elected_by_quota_above(
                        (#[trigger] self.transcript.counts@[k]).elected@,
                        self.transcript.counts@[k].status.tallies.candidate@,
                        self.quota,
                    ),
                forall|k: int|
                    start.transcript.counts@.len() <= k < self.transcript.counts@.len() ==> (parcels_always_keyed::<Rules::SplitByNumber>()
                        ==> count_holds_papers(#[trigger] self.transcript.counts@[k], total_papers(self.original_votes@) as int)),
            decreases self.work_left(),
        {
            if self.pending_surplus_distribution.len() > 0 {
                let ghost before = self.pending_surplus_distribution@;
                let c = self.pending_surplus_distribution.take_first();
                proof {
                    assert(before[0] == c);
                    assert(!self.continuing_candidates@.contains(c.0));
                    assert forall|i: int| 0 <= i < self.pending_surplus_distribution@.len() implies !self.continuing_candidates@.contains(
                        (#[trigger] self.pending_surplus_distribution@[i]).0,
                    ) by {
                        assert(self.pending_surplus_distribution@[i] == before[i + 1]);
                    }
                    assert forall|i: int| 0 <= i < self.pending_surplus_distribution@.len() implies (#[trigger] self.pending_surplus_distribution@[i]).0
                        < self.num_candidates by {
                        assert(self.pending_surplus_distribution@[i] == before[i + 1]);
                    }
                }
                let ghost before_step = self.transcript.counts@;
                let ghost before_state = *self;
                self.distribute_surplus(c);
                proof {
                    assert forall|k: int|
                        start.transcript.counts@.len() <= k < self.transcript.counts@.len() && parcels_always_keyed::<Rules::SplitByNumber>()
                            implies count_holds_papers(#[trigger] self.transcript.counts@[k], total_papers(self.original_votes@) as int) by {
                        if k < before_step.len() {
                            assert(self.transcript.counts@[k] == before_step[k]);
                        } else {
                            assert(self.transcript.counts@[k] == self.transcript.counts@.last());
                        }
                    }
                    assert forall|k: int| start.transcript.counts@.len() <= k < self.transcript.counts@.len() implies elected_by_quota_above(
                        (#[trigger] self.transcript.counts@[k]).elected@,
                        self.transcript.counts@[k].status.tallies.candidate@,
                        self.quota,
                    ) by {
                        if k < before_step.len() {
                            assert(self.transcript.counts@[k] == before_step[k]);
                        } else {
                            assert(self.transcript.counts@[k] == self.transcript.counts@.last());
                        }
                    }
                }
                proof {
                    lemma_prefix_of_prefix(first, before_step, self.transcript.counts@);
                    lemma_counts_after_first_extend(before_step, self.transcript.counts@, first.len() as int);
                    assert(self.transcript.counts@[self.transcript.counts@.len() - 1].reason == ReasonForCount::ExcessDistribution(c));
                }
                self.pending_surplus_distribution.distributed = Ghost(self.pending_surplus_distribution.distributed@.push(c));
                self.pending_surplus_distribution.in_hand = Ghost(None);
                proof {
                    let q = self.pending_surplus_distribution;
                    assert(q.queued@ =~= q.distributed@ + in_hand_seq(q.in_hand@) + q.pending@);
                    assert forall|i: int| 0 <= i < q.distributed@.len() implies has_surplus_count(
                        self.transcript.counts@,
                        #[trigger] q.distributed@[i],
                    ) by {
                        if i == q.distributed@.len() - 1 {
                            assert(self.transcript.counts@[self.transcript.counts@.len() - 1].reason
                                == ReasonForCount::ExcessDistribution(q.distributed@[i]));
                        }
                    }
                }
            } else {
                let ghost before_step = self.transcript.counts@;
                let ghost before_state = *self;
                self.distribute_lowest();
                proof {
                    assert forall|k: int|
                        start.transcript.counts@.len() <= k < self.transcript.counts@.len() && parcels_always_keyed::<Rules::SplitByNumber>()
                            implies count_holds_papers(#[trigger] self.transcript.counts@[k], total_papers(self.original_votes@) as int) by {
                        if k < before_step.len() {
                            assert(self.transcript.counts@[k] == before_step[k]);
                        }
                    }
                    assert forall|k: int| start.transcript.counts@.len() <= k < self.transcript.counts@.len() implies elected_by_quota_above(
                        (#[trigger] self.transcript.counts@[k]).elected@,
                        self.transcript.counts@[k].status.tallies.candidate@,
                        self.quota,
                    ) by {
                        if k < before_step.len() {
                            assert(self.transcript.counts@[k] == before_step[k]);
                        }
                    }
                }
                proof {
                    lemma_prefix_of_prefix(first, before_step, self.transcript.counts@);
                    lemma_counts_after_first_extend(before_step, self.transcript.counts@, first.len() as int);
                }
            }
        }
        proof {
            lemma_prefix_of_prefix(start.transcript.counts@, first, self.transcript.counts@);
            assert(self.transcript.counts@[start.transcript.counts@.len() as int] == first[start.transcript.counts@.len() as int]);
        }
    }
}

/// The candidates continuing when a count starts: all of the `n` but the excluded ones.
pub open spec fn initially_continuing(n: nat, excluded: Seq<CandidateIndex>) -> Set<usize> {
    Set::new(|i: usize| i < n && !excluded.contains(CandidateIndex(i)))
}

/// `w` is a distribution that has ended with the transcript `t`: either the vacancies are all
/// filled, or there is no candidate left to elect, and no surplus left to distribute. Every
/// candidate queued for the distribution of a surplus (when elected with more than the quota)
/// that is no longer waiting has a count in `t` distributing that surplus. In every count, each
/// candidate elected for reaching the quota has a tally above the quota; and where every parcel
/// of papers has a key under the rules, every count accounts for all the papers, held by the
/// candidates or exhausted.
pub open spec fn finished_distribution<'a, R: PreferenceDistributionRules>(
    w: PreferenceDistributor<'a, R>,
    t: Transcript<R::Tally>,
) -> bool {
    let q = w.pending_surplus_distribution;
    &&& w.wf()
    &&& w.transcript == t
    &&& (w.elected_candidates@.len() >= w.candidates_to_be_elected || (w.continuing_candidates_sorted_by_tally@.len() == 0
        && w.pending_surplus_distribution@.len() == 0))
    &&& q.in_hand@ is None
    &&& (parcels_always_keyed::<R::SplitByNumber>() ==> all_papers(w.papers@) + w.exhausted.0 == total_papers(w.original_votes@))
    &&& forall|k: int|
        0 <= k < t.counts@.len() ==> elected_by_quota_above(
            (#[trigger] t.counts@[k]).elected@,
            t.counts@[k].status.tallies.candidate@,
            w.quota,
        )
    &&& forall|k: int|
        0 <= k < t.counts@.len() ==> (parcels_always_keyed::<R::SplitByNumber>() ==> count_holds_papers(
            #[trigger] t.counts@[k],
            total_papers(w.original_votes@) as int,
        ))
    &&& q.queued@.len() >= q@.len()
    &&& forall|i: int| 0 <= i < q.queued@.len() - q@.len() ==> has_surplus_count(t.counts@, #[trigger] q.queued@[i])
}

/// Do a distribution of preferences of the given votes (with above the line votes already
/// turned into their below the line equivalents), electing the given number of candidates, with
/// the excluded candidates not continuing from the start.
pub fn distribute_preferences<'a, Rules: PreferenceDistributionRules>(
    data: &'a ElectionData,
    votes: &'a Vec<PartiallyDistributedVote<'a>>,
    candidates_to_be_elected: usize,
    excluded_candidates: &[CandidateIndex],
    ec_resolutions: &'a TieResolutionsMadeByEC,
) -> (res: Transcript<Rules::Tally>)
    requires
        total_papers(votes@) < usize::MAX,
        candidates_to_be_elected < usize::MAX,
        (total_papers(votes@) + 1) * Rules::Tally::unit() <= Rules::Tally::max_value(),
        ec_wf(ec_resolutions.tie_resolutions@),
    ensures
        res.counts@.len() > 0,
        forall|i: int| 0 <= i < res.elected@.len() ==> (#[trigger] res.elected@[i]).0 < data.metadata.candidates@.len(),
        !has_repeats(res.elected@),
        forall|i: int| 0 <= i < res.elected@.len() ==> !excluded_candidates@.contains(#[trigger] res.elected@[i]),
        res.counts@[0].reason == ReasonForCount::FirstPreferenceCount,
        counts_after_first(res.counts@, 1),
        res.counts@[0].status.tallies.candidate@.len() == data.metadata.candidates@.len(),
        forall|c: int|
            0 <= c < data.metadata.candidates@.len() ==> (#[trigger] res.counts@[0].status.tallies.candidate@[c]).value()
                == total_papers(
                votes_going_to(votes@, initially_continuing(data.metadata.candidates@.len(), excluded_candidates@), c),
            ) * Rules::Tally::unit(),
        exists|w: PreferenceDistributor<'a, Rules>|
            #[trigger] finished_distribution(w, res) && w.candidates_to_be_elected == candidates_to_be_elected
                && w.num_candidates == data.metadata.candidates@.len() && w.original_votes@ == votes@,
        res.elected@.len() >= candidates_to_be_elected || exists|w: PreferenceDistributor<'a, Rules>|
            #[trigger] finished_distribution(w, res) && w.continuing_candidates_sorted_by_tally@.len() == 0
                && w.pending_surplus_distribution@.len() == 0,
{
    let mut work: PreferenceDistributor<'a, Rules> = PreferenceDistributor::new(
        data,
        votes,
        candidates_to_be_elected,
        excluded_candidates,
        ec_resolutions,
    );
    let ghost n = data.metadata.candidates@.len();
    proof {
        let s = Seq::new(n, |i: int| i as usize);
        let pred = |i: usize| !excluded_candidates@.contains(CandidateIndex(i));
        let ix = indices_of(work.continuing_candidates_sorted_by_tally@);
        assert(ix == s.filter(pred));
        assert forall|x: usize| #[trigger] ix.to_set().contains(x) <==> initially_continuing(n, excluded_candidates@).contains(x) by {
            if ix.contains(x) {
                s.lemma_filter_contains_rev(pred, x);
                let k = choose|k: int| 0 <= k < ix.len() && ix[k] == x;
                s.lemma_filter_pred(pred, k);
            }
            if x < n && pred(x) {
                assert(s[x as int] == x);
                s.lemma_filter_contains(pred, x as int);
            }
        }
        assert(work.continuing_candidates@ =~= initially_continuing(n, excluded_candidates@));
    }
    let ghost before = work;
    work.go();
    proof {
        let q = work.pending_surplus_distribution;
        assert(q.queued@ =~= q.distributed@ + q@);
        assert forall|i: int| 0 <= i < q.queued@.len() - q@.len() implies has_surplus_count(
            work.transcript.counts@,
            #[trigger] q.queued@[i],
        ) by {
            assert(q.queued@[i] == q.distributed@[i]);
        }
        assert(finished_distribution(work, work.transcript));
        assert(before.transcript.counts@.len() == 0);
        assert forall|c: int| 0 <= c < n implies (#[trigger] work.transcript.counts@[0].status.tallies.candidate@[c]).value()
            == total_papers(votes_going_to(votes@, initially_continuing(n, excluded_candidates@), c)) * Rules::Tally::unit() by {
            assert(work.transcript.counts@[before.transcript.counts@.len() as int].status.tallies.candidate@[c].value()
                == total_papers(votes_going_to(before.original_votes@, before.continuing_candidates@, c)) * Rules::Tally::unit());
        }
    }
    work.transcript
}

/// The state is the same, but for the decisions noted in this count, the state of the
/// randomness, and the order of the continuing candidates.
pub open spec fn same_but_order<'a, R: PreferenceDistributionRules>(a: PreferenceDistributor<'a, R>, b: PreferenceDistributor<'a, R>) -> bool {
    &&& a.data == b.data
    &&& a.ec_resolutions == b.ec_resolutions
    &&& a.original_votes == b.original_votes
    &&& a.excluded_at_start == b.excluded_at_start
    &&& a.num_candidates == b.num_candidates
    &&& a.candidates_to_be_elected == b.candidates_to_be_elected
    &&& a.quota == b.quota
    &&& a.tallys == b.tallys
    &&& a.papers == b.papers
    &&& a.continuing_candidates@ == b.continuing_candidates@
    &&& a.continuing_candidates_sorted_by_tally@.to_multiset() == b.continuing_candidates_sorted_by_tally@.to_multiset()
    &&& same_tallies_by_position(a.continuing_candidates_sorted_by_tally@, b.continuing_candidates_sorted_by_tally@, b.tallys@)
    &&& a.exhausted == b.exhausted
    &&& a.current_count == b.current_count
    &&& a.pending_surplus_distribution == b.pending_surplus_distribution
    &&& a.elected_candidates == b.elected_candidates
    &&& a.transcript == b.transcript
    &&& a.in_this_count.not_continuing == b.in_this_count.not_continuing
    &&& a.in_this_count.elected == b.in_this_count.elected
}

impl<'a, Rules: PreferenceDistributionRules> PreferenceDistributor<'a, Rules> {
    /// Like `check_for_ties_and_resolve`, but done in place on the continuing candidates (sorted
    /// by tally) from position `start` to position `end`.
    pub fn check_for_ties_and_resolve_inplace(
        &mut self,
        start: usize,
        end: usize,
        how: MethodOfTieResolution,
        granularity: TieResolutionGranularityNeeded,
        usage: TieResolutionUsage,
    )
        requires
            old(self).wf(),
            start <= end <= old(self).continuing_candidates_sorted_by_tally@.len(),
        ensures
            final(self).wf(),
            same_but_order(*final(self), *old(self)),
            final(self).continuing_candidates_sorted_by_tally@.take(start as int) == old(self).continuing_candidates_sorted_by_tally@.take(start as int),
            final(self).continuing_candidates_sorted_by_tally@.skip(end as int) == old(self).continuing_candidates_sorted_by_tally@.skip(end as int),
            final(self).in_this_count.decisions@.len() >= old(self).in_this_count.decisions@.len(),
            forall|k: int|
                0 <= k < old(self).in_this_count.decisions@.len() ==> #[trigger] final(self).in_this_count.decisions@[k]
                    == old(self).in_this_count.decisions@[k],
            forall|k: int|
                old(self).in_this_count.decisions@.len() <= k < final(self).in_this_count.decisions@.len() ==> (
                #[trigger] final(self).in_this_count.decisions@[k]).usage == Some(usage),
            how == MethodOfTieResolution::NoResolution ==> final(self).in_this_count.decisions@.len()
                == old(self).in_this_count.decisions@.len() + tie_runs(
                old(self).continuing_candidates_sorted_by_tally@.subrange(start as int, end as int),
                old(self).tallys@,
            ),
            tie_runs(old(self).continuing_candidates_sorted_by_tally@.subrange(start as int, end as int), old(self).tallys@) == 0
                ==> final(self).continuing_candidates_sorted_by_tally@ == old(self).continuing_candidates_sorted_by_tally@
                && final(self).in_this_count.decisions@ == old(self).in_this_count.decisions@,
    {
        let ghost sorted = self.continuing_candidates_sorted_by_tally@;
        let mut tied = copy_range(&self.continuing_candidates_sorted_by_tally, start, end);
        proof {
            lemma_subrange_distinct(sorted, start as int, end as int);
            assert forall|i: int| 0 <= i < tied@.len() implies (#[trigger] tied@[i]).0 < self.num_candidates by {
                assert(tied@[i] == sorted[start + i]);
            }
        }
        let ghost before_tied = tied@;
        self.check_for_ties_and_resolve(&mut tied, how, granularity, usage);
        proof {
            assert(sorted.subrange(start as int, start + tied@.len()) == before_tied);
            lemma_replace_with_permutation(sorted, start as int, tied@);
        }
        write_range(&mut self.continuing_candidates_sorted_by_tally, start, &tied);
        proof {
            let now = self.continuing_candidates_sorted_by_tally@;
            lemma_permutation_keeps_distinct(sorted, now);
            lemma_permutation_keeps_indices(sorted, now, self.num_candidates as nat);
            assert forall|k: int| 0 <= k < now.len() implies #[trigger] self.tallys@[now[k].0 as int].value()
                == self.tallys@[sorted[k].0 as int].value() by {
                if start <= k < end {
                    assert(now[k] == tied@[k - start]);
                    assert(before_tied[k - start] == sorted[k]);
                } else {
                    assert(now[k] == sorted[k]);
                }
            }
            assert(now.take(start as int) =~= sorted.take(start as int));
            assert(now.skip(end as int) =~= sorted.skip(end as int));
            if tied@ == before_tied {
                assert(now =~= sorted);
            }
        }
    }
}

/// The tally value of the candidate at a position.
pub open spec fn tally_at<T: TallyValue>(s: Seq<CandidateIndex>, tallies: Seq<T>, i: int) -> nat {
    tallies[s[i].0 as int].value()
}

/// The notional votes of the candidate at position `i` (candidates sorted lowest first): its votes
/// and those of every candidate lower in the poll (stopping at the largest tally).
pub open spec fn notional<T: TallyValue>(s: Seq<CandidateIndex>, tallies: Seq<T>, i: int) -> nat
    decreases i + 1,
{
    if i < 0 {
        0
    } else {
        capped_sum::<T>(notional(s, tallies, i - 1), tally_at(s, tallies, i))
    }
}

/// The shortfall of the candidate at position `i`: the votes it needs to reach the quota.
pub open spec fn shortfall<T: TallyValue>(s: Seq<CandidateIndex>, tallies: Seq<T>, q: nat, i: int) -> nat {
    if tally_at(s, tallies, i) <= q {
        (q - tally_at(s, tallies, i)) as nat
    } else {
        0
    }
}

/// The shortfalls of the `m` candidates highest in the poll, added up from the highest
/// (stopping at the largest tally).
pub open spec fn top_shortfalls<T: TallyValue>(s: Seq<CandidateIndex>, tallies: Seq<T>, q: nat, m: nat) -> nat
    decreases m,
{
    if m == 0 {
        0
    } else {
        capped_sum::<T>(top_shortfalls(s, tallies, q, (m - 1) as nat), shortfall(s, tallies, q, s.len() - m))
    }
}

/// The first position from `i` whose notional votes are not below `bound` (or the length).
pub open spec fn first_not_below<T: TallyValue>(s: Seq<CandidateIndex>, tallies: Seq<T>, bound: nat, i: int) -> int
    decreases s.len() - i,
{
    if 0 <= i < s.len() && notional(s, tallies, i) < bound {
        first_not_below(s, tallies, bound, i + 1)
    } else {
        i
    }
}

/// One above the highest position, from `j` down, whose candidate has fewer notional votes than
/// the votes of the candidate just above it; 0 if there is none.
pub open spec fn candidate_b_plus_one<T: TallyValue>(s: Seq<CandidateIndex>, tallies: Seq<T>, j: int) -> int
    decreases j,
{
    if j > 0 && notional(s, tallies, j - 1) >= tally_at(s, tallies, j) {
        candidate_b_plus_one(s, tallies, j - 1)
    } else {
        j
    }
}

/// How many of the lowest candidates the Commonwealth Electoral Act 1918, section 273,
/// subsections 13A and 13B allow to be excluded together, if any: candidate B is the highest
/// candidate with fewer notional votes than the vacancy shortfall (the shortfalls of as many of
/// the highest candidates as there are vacancies left) and than the votes of the candidate just
/// above; if B's notional votes are below the leading shortfall (that of the highest candidate),
/// B and all below go; otherwise candidate C, the highest with notional votes below the leading
/// shortfall, and all below go; but enough candidates are left to fill the vacancies.
pub open spec fn bulk_exclusion_count<T: TallyValue>(s: Seq<CandidateIndex>, tallies: Seq<T>, q: nat, remaining: nat) -> Option<nat> {
    let len = s.len();
    let vacancy_shortfall = top_shortfalls(s, tallies, q, if remaining < len { remaining } else { len });
    let leading_shortfall = shortfall(s, tallies, q, len - 1);
    let below = first_not_below(s, tallies, vacancy_shortfall, 0);
    let b_plus_one = candidate_b_plus_one(s, tallies, if below < len - 1 { below } else { len - 1 });
    if b_plus_one == 0 {
        None
    } else {
        let b = b_plus_one - 1;
        let k: int = if notional(s, tallies, b) < leading_shortfall {
            b + 1
        } else {
            first_not_below(s, tallies, leading_shortfall, 0)
        };
        let limit: int = if remaining <= len { len - remaining } else { 0 };
        let k2 = if k < limit { k } else { limit };
        if k2 <= 0 {
            None
        } else {
            Some(k2 as nat)
        }
    }
}

/// The first position from `from` whose notional votes (given) are not below `bound`.
fn first_not_below_exec<T: TallyValue>(notional_votes: &Vec<T>, bound: &T, Ghost(s): Ghost<Seq<CandidateIndex>>, Ghost(ts): Ghost<Seq<T>>) -> (res: usize)
    requires
        notional_votes@.len() == s.len(),
        forall|j: int| 0 <= j < s.len() ==> #[trigger] notional_votes@[j].value() == notional(s, ts, j),
    ensures
        res == first_not_below(s, ts, bound.value(), 0),
{
    let len = notional_votes.len();
    let mut i: usize = 0;
    while i < len && notional_votes[i].is_less(bound)
        invariant
            0 <= i <= len,
            len == s.len(),
            notional_votes@.len() == len,
            forall|j: int| 0 <= j < s.len() ==> #[trigger] notional_votes@[j].value() == notional(s, ts, j),
            first_not_below(s, ts, bound.value(), 0) == first_not_below(s, ts, bound.value(), i as int),
        decreases len - i,
    {
        i = i + 1;
    }
    i
}

impl<'a, Rules: PreferenceDistributionRules> PreferenceDistributor<'a, Rules> {
    /// The notional votes of each continuing candidate, lowest in the poll first.
    fn notional_votes(&self) -> (res: Vec<Rules::Tally>)
        requires
            self.wf(),
        ensures
            res@.len() == self.continuing_candidates_sorted_by_tally@.len(),
            forall|j: int|
                0 <= j < res@.len() ==> #[trigger] res@[j].value() == notional(
                    self.continuing_candidates_sorted_by_tally@,
                    self.tallys@,
                    j,
                ),
    {
        let ghost s = self.continuing_candidates_sorted_by_tally@;
        let ghost ts = self.tallys@;
        let len = self.continuing_candidates_sorted_by_tally.len();
        let mut res: Vec<Rules::Tally> = Vec::new();
        let mut running = Rules::Tally::zero();
        for i in 0..len
            invariant
                self.wf(),
                len == s.len(),
                s == self.continuing_candidates_sorted_by_tally@,
                ts == self.tallys@,
                res@.len() == i,
                forall|j: int| 0 <= j < i ==> #[trigger] res@[j].value() == notional(s, ts, j),
                running.value() == notional(s, ts, i - 1),
        {
            let t = self.tally(self.continuing_candidates_sorted_by_tally[i]);
            running = plus_capped(&running, &t);
            res.push(running);
        }
        res
    }

    /// The shortfalls of the `top` candidates highest in the poll, added up.
    fn top_shortfalls_exec(&self, top: usize) -> (res: Rules::Tally)
        requires
            self.wf(),
            top <= self.continuing_candidates_sorted_by_tally@.len(),
        ensures
            res.value() == top_shortfalls(self.continuing_candidates_sorted_by_tally@, self.tallys@, self.quota.value(), top as nat),
    {
        let len = self.continuing_candidates_sorted_by_tally.len();
        let mut total = Rules::Tally::zero();
        for m in 0..top
            invariant
                self.wf(),
                top <= len,
                len == self.continuing_candidates_sorted_by_tally@.len(),
                total.value() == top_shortfalls(self.continuing_candidates_sorted_by_tally@, self.tallys@, self.quota.value(), m as nat),
        {
            let c = self.continuing_candidates_sorted_by_tally[len - 1 - m];
            let sf = minus_floored(&self.quota, &self.tally(c));
            total = plus_capped(&total, &sf);
        }
        total
    }

    /// How many of the lowest candidates may be excluded together, if any (see
    /// `bulk_exclusion_count`).
    fn bulk_exclusion_count_exec(&self) -> (res: Option<usize>)
        requires
            self.wf(),
            self.continuing_candidates_sorted_by_tally@.len() > 0,
        ensures
            match bulk_exclusion_count(
                self.continuing_candidates_sorted_by_tally@,
                self.tallys@,
                self.quota.value(),
                if self.elected_candidates@.len() <= self.candidates_to_be_elected {
                    (self.candidates_to_be_elected - self.elected_candidates@.len()) as nat
                } else {
                    0
                },
            ) {
                None => res is None,
                Some(k) => res is Some && res->0 == k && 0 < k <= self.continuing_candidates_sorted_by_tally@.len(),
            },
    {
        let ghost s = self.continuing_candidates_sorted_by_tally@;
        let ghost ts = self.tallys@;
        let len = self.continuing_candidates_sorted_by_tally.len();
        let remaining = self.remaining_to_elect();
        let notional_votes = self.notional_votes();
        let top = if remaining < len { remaining } else { len };
        let vacancy_shortfall = self.top_shortfalls_exec(top);
        let leading_shortfall = minus_floored(&self.quota, &self.tally(self.continuing_candidates_sorted_by_tally[len - 1]));
        let below = first_not_below_exec(&notional_votes, &vacancy_shortfall, Ghost(s), Ghost(ts));
        proof {
            lemma_first_not_below_range(s, ts, vacancy_shortfall.value(), 0);
            lemma_first_not_below_range(s, ts, leading_shortfall.value(), 0);
        }
        let mut b_plus_one = if below < len - 1 { below } else { len - 1 };
        let ghost start_b = b_plus_one as int;
        while b_plus_one > 0 && !notional_votes[b_plus_one - 1].is_less(&self.tally(self.continuing_candidates_sorted_by_tally[b_plus_one]))
            invariant
                self.wf(),
                0 <= b_plus_one < len,
                len == s.len(),
                s == self.continuing_candidates_sorted_by_tally@,
                ts == self.tallys@,
                notional_votes@.len() == len,
                forall|j: int| 0 <= j < s.len() ==> #[trigger] notional_votes@[j].value() == notional(s, ts, j),
                candidate_b_plus_one(s, ts, start_b) == candidate_b_plus_one(s, ts, b_plus_one as int),
            decreases b_plus_one,
        {
            b_plus_one = b_plus_one - 1;
        }
        if b_plus_one == 0 {
            return None;
        }
        let b = b_plus_one - 1;
        let k: usize = if notional_votes[b].is_less(&leading_shortfall) {
            b + 1
        } else {
            first_not_below_exec(&notional_votes, &leading_shortfall, Ghost(s), Ghost(ts))
        };
        let limit: usize = if remaining <= len { len - remaining } else { 0 };
        let candidates_to_exclude = if k < limit { k } else { limit };
        if candidates_to_exclude == 0 {
            None
        } else {
            Some(candidates_to_exclude)
        }
    }

    /// The Commonwealth Electoral Act 1918, section 273, subsection 13A bulk exclusion: the
    /// lowest candidates that may be excluded together, if there are any (see
    /// `bulk_exclusion_count`). A tie that matters at the boundary is resolved as for choosing
    /// the lowest candidate, which may reorder the tied candidates.
    pub fn find_candidates_for_multiple_elimination_federal_rule_13a(&mut self) -> (res: Option<Vec<CandidateIndex>>)
        requires
            old(self).wf(),
            old(self).continuing_candidates_sorted_by_tally@.len() > 0,
        ensures
            final(self).wf(),
            same_but_order(*final(self), *old(self)),
            match bulk_exclusion_count(
                old(self).continuing_candidates_sorted_by_tally@,
                old(self).tallys@,
                old(self).quota.value(),
                if old(self).elected_candidates@.len() <= old(self).candidates_to_be_elected {
                    (old(self).candidates_to_be_elected - old(self).elected_candidates@.len()) as nat
                } else {
                    0
                },
            ) {
                None => res is None && final(self).continuing_candidates_sorted_by_tally == old(self).continuing_candidates_sorted_by_tally,
                Some(k) => res matches Some(v) && v@ == final(self).continuing_candidates_sorted_by_tally@.take(k as int) && k > 0,
            },
    {
        let ghost s = self.continuing_candidates_sorted_by_tally@;
        let candidates_to_exclude = match self.bulk_exclusion_count_exec() {
            Some(k) => k,
            None => {
                proof {
                    lemma_same_but_order_refl(*self);
                }
                return None;
            },
        };
        let len = self.continuing_candidates_sorted_by_tally.len();
        let tally_of_highest_excluded = self.tally(self.continuing_candidates_sorted_by_tally[candidates_to_exclude - 1]);
        let mut tie_end = candidates_to_exclude;
        while tie_end < len && tally_of_highest_excluded.is_same(&self.tally(self.continuing_candidates_sorted_by_tally[tie_end]))
            invariant
                self.wf(),
                candidates_to_exclude <= tie_end <= len,
                len == self.continuing_candidates_sorted_by_tally@.len(),
            decreases len - tie_end,
        {
            tie_end = tie_end + 1;
        }
        if tie_end > candidates_to_exclude {
            let mut tie_start: usize = candidates_to_exclude - 1;
            while tie_start > 0 && tally_of_highest_excluded.is_same(&self.tally(self.continuing_candidates_sorted_by_tally[tie_start - 1]))
                invariant
                    self.wf(),
                    tie_start < candidates_to_exclude <= len,
                    len == self.continuing_candidates_sorted_by_tally@.len(),
                decreases tie_start,
            {
                tie_start = tie_start - 1;
            }
            self.check_for_ties_and_resolve_inplace(
                tie_start,
                tie_end,
                Rules::resolve_ties_choose_lowest_candidate_for_exclusion(),
                TieResolutionGranularityNeeded::LowestSeparated(candidates_to_exclude - tie_start),
                TieResolutionUsage::Exclusion,
            );
        } else {
            proof {
                lemma_same_but_order_refl(*self);
            }
        }
        Some(copy_range(&self.continuing_candidates_sorted_by_tally, 0, candidates_to_exclude))
    }
}

/// Where the first position not below a bound is.
proof fn lemma_first_not_below_range<T: TallyValue>(s: Seq<CandidateIndex>, tallies: Seq<T>, bound: nat, i: int)
    requires
        0 <= i <= s.len(),
    ensures
        i <= first_not_below(s, tallies, bound, i) <= s.len(),
    decreases s.len() - i,
{
    if i < s.len() && notional(s, tallies, i) < bound {
        lemma_first_not_below_range(s, tallies, bound, i + 1);
    }
}

/// A state differs in order only from itself.
proof fn lemma_same_but_order_refl<'a, R: PreferenceDistributionRules>(a: PreferenceDistributor<'a, R>)
    ensures
        same_but_order(a, a),
{
    assert(same_tallies_by_position(a.continuing_candidates_sorted_by_tally@, a.continuing_candidates_sorted_by_tally@, a.tallys@));
}

/// The state is the same but for the papers held by the candidates and their tallies.
pub open spec fn same_but_papers_and_tallies<'a, R: PreferenceDistributionRules>(a: PreferenceDistributor<'a, R>, b: PreferenceDistributor<'a, R>) -> bool {
    &&& a.data == b.data
    &&& a.ec_resolutions == b.ec_resolutions
    &&& a.original_votes == b.original_votes
    &&& a.excluded_at_start == b.excluded_at_start
    &&& a.num_candidates == b.num_candidates
    &&& a.candidates_to_be_elected == b.candidates_to_be_elected
    &&& a.quota == b.quota
    &&& a.continuing_candidates@ == b.continuing_candidates@
    &&& a.continuing_candidates_sorted_by_tally == b.continuing_candidates_sorted_by_tally
    &&& a.exhausted == b.exhausted
    &&& a.exhausted_atl == b.exhausted_atl
    &&& a.current_count == b.current_count
    &&& a.pending_surplus_distribution == b.pending_surplus_distribution
    &&& a.elected_candidates == b.elected_candidates
    &&& a.in_this_count.elected == b.in_this_count.elected
    &&& a.in_this_count.not_continuing == b.in_this_count.not_continuing
    &&& a.in_this_count.decisions == b.in_this_count.decisions
    &&& a.transcript == b.transcript
}

/// The state is the same but for the papers held by the candidates.
pub open spec fn same_but_papers<'a, R: PreferenceDistributionRules>(a: PreferenceDistributor<'a, R>, b: PreferenceDistributor<'a, R>) -> bool {
    &&& a.data == b.data
    &&& a.ec_resolutions == b.ec_resolutions
    &&& a.original_votes == b.original_votes
    &&& a.excluded_at_start == b.excluded_at_start
    &&& a.num_candidates == b.num_candidates
    &&& a.candidates_to_be_elected == b.candidates_to_be_elected
    &&& a.quota == b.quota
    &&& a.tallys == b.tallys
    &&& a.continuing_candidates@ == b.continuing_candidates@
    &&& a.continuing_candidates_sorted_by_tally == b.continuing_candidates_sorted_by_tally
    &&& a.exhausted == b.exhausted
    &&& a.exhausted_atl == b.exhausted_atl
    &&& a.tally_lost_to_rounding == b.tally_lost_to_rounding
    &&& a.tally_exhausted == b.tally_exhausted
    &&& a.tally_set_aside == b.tally_set_aside
    &&& a.current_count == b.current_count
    &&& a.pending_surplus_distribution == b.pending_surplus_distribution
    &&& a.elected_candidates == b.elected_candidates
    &&& a.in_this_count.elected == b.in_this_count.elected
    &&& a.in_this_count.not_continuing == b.in_this_count.not_continuing
    &&& a.in_this_count.created_transfer_value == b.in_this_count.created_transfer_value
    &&& a.in_this_count.decisions == b.in_this_count.decisions
    &&& a.transcript == b.transcript
}

/// Removing a candidate makes a list no longer.
proof fn lemma_without_len(s: Seq<CandidateIndex>, c: CandidateIndex)
    ensures
        without(s, c).len() <= s.len(),
    decreases s.len(),
{
    if s.len() > 0 {
        lemma_without_len(s.drop_last(), c);
    }
}

/// What electing a stretch at the end of the continuing candidates needs to start.
proof fn lemma_elect_setup(sorted: Seq<CandidateIndex>, k: int, list: Seq<CandidateIndex>, n: nat)
    requires
        !has_repeats(sorted),
        all_below(sorted, n),
        0 <= k <= sorted.len(),
        list.to_multiset() == sorted.skip(k).to_multiset(),
    ensures
        sorted == sorted.take(k) + sorted.skip(k),
        keep_if_in(sorted.skip(k), Seq::empty(), false) == sorted.skip(k),
        !has_repeats(list),
        all_below(list, n),
{
    lemma_keep_none(sorted.skip(k));
    lemma_subrange_distinct(sorted, k, sorted.len() as int);
    assert(sorted.subrange(k, sorted.len() as int) == sorted.skip(k));
    lemma_permutation_keeps_distinct(sorted.skip(k), list);
    assert forall|i: int| 0 <= i < sorted.skip(k).len() implies (#[trigger] sorted.skip(k)[i]).0 < n by {
        assert(sorted.skip(k)[i] == sorted[k + i]);
    }
    lemma_permutation_keeps_indices(sorted.skip(k), list, n);
}

/// Electing one more of the stretch removes it from what is left of the stretch.
proof fn lemma_elect_step(sorted: Seq<CandidateIndex>, k: int, list: Seq<CandidateIndex>, j: int, removed: Seq<CandidateIndex>)
    requires
        !has_repeats(sorted),
        0 <= k <= sorted.len(),
        list.to_multiset() == sorted.skip(k).to_multiset(),
        0 <= j < list.len(),
        removed == list.skip(j + 1).reverse(),
        !has_repeats(list),
    ensures
        (sorted.take(k) + keep_if_in(sorted.skip(k), removed, false)).contains(list[j]),
        without(sorted.take(k) + keep_if_in(sorted.skip(k), removed, false), list[j]) == sorted.take(k) + keep_if_in(
            sorted.skip(k),
            removed.push(list[j]),
            false,
        ),
        list.skip(j).reverse() == removed.push(list[j]),
{
    broadcast use vstd::seq_lib::group_to_multiset_ensures;
    let prefix = sorted.take(k);
    let suffix = sorted.skip(k);
    let c = list[j];
    assert(list.contains(c));
    assert(list.to_multiset().count(c) > 0);
    assert(suffix.to_multiset().count(c) > 0);
    assert(suffix.contains(c));
    assert(!prefix.contains(c)) by {
        if prefix.contains(c) {
            let a = choose|a: int| 0 <= a < prefix.len() && prefix[a] == c;
            let b = choose|b: int| 0 <= b < suffix.len() && suffix[b] == c;
            assert(sorted[a] == sorted[k + b]);
        }
    }
    assert(!removed.contains(c)) by {
        if removed.contains(c) {
            let m = choose|m: int| 0 <= m < removed.len() && removed[m] == c;
            assert(removed[m] == list[j + 1 + (removed.len() - 1 - m)]);
            assert(has_repeats(list));
        }
    }
    crate::tie_resolution::lemma_keep_if_in_members(suffix, removed, false);
    let kept = keep_if_in(suffix, removed, false);
    assert(kept.contains(c));
    let b = choose|b: int| 0 <= b < kept.len() && kept[b] == c;
    assert((prefix + kept)[prefix.len() + b] == c);
    lemma_without_concat(prefix, keep_if_in(suffix, removed, false), c);
    lemma_without_keep(suffix, removed, c);
    assert(list.skip(j) =~= seq![c] + list.skip(j + 1));
    assert(list.skip(j).reverse() =~= list.skip(j + 1).reverse().push(c));
}

/// Once every one of the stretch is elected, only the candidates before it are left.
proof fn lemma_elect_done(sorted: Seq<CandidateIndex>, k: int, list: Seq<CandidateIndex>, removed: Seq<CandidateIndex>)
    requires
        0 <= k <= sorted.len(),
        list.to_multiset() == sorted.skip(k).to_multiset(),
        removed == list.skip(0).reverse(),
    ensures
        sorted.take(k) + keep_if_in(sorted.skip(k), removed, false) == sorted.take(k),
{
    broadcast use vstd::seq_lib::group_to_multiset_ensures;
    let suffix = sorted.skip(k);
    assert(list.skip(0) == list);
    assert forall|i: int| 0 <= i < suffix.len() implies removed.contains(#[trigger] suffix[i]) by {
        assert(suffix.contains(suffix[i]));
        assert(suffix.to_multiset().count(suffix[i]) > 0);
        assert(list.to_multiset().count(suffix[i]) > 0);
        assert(list.contains(suffix[i]));
        let a = choose|a: int| 0 <= a < list.len() && list[a] == suffix[i];
        assert(removed[list.len() - 1 - a] == suffix[i]);
    }
    lemma_keep_all_removed(suffix, removed);
    assert(keep_if_in(suffix, removed, false) =~= Seq::<CandidateIndex>::empty());
    assert(sorted.take(k) + Seq::<CandidateIndex>::empty() =~= sorted.take(k));
}

/// Reversing a list keeps its members.
proof fn lemma_reverse_multiset(s: Seq<CandidateIndex>)
    ensures
        s.reverse().to_multiset() == s.to_multiset(),
    decreases s.len(),
{
    broadcast use vstd::seq_lib::group_to_multiset_ensures, vstd::seq_lib::lemma_multiset_commutative;
    if s.len() > 0 {
        lemma_reverse_multiset(s.drop_last());
        assert(s.reverse() =~= seq![s.last()] + s.drop_last().reverse());
        assert(s.drop_last().push(s.last()) == s);
        assert(seq![s.last()] =~= Seq::<CandidateIndex>::empty().push(s.last()));
        assert(s.reverse().to_multiset() =~= s.drop_last().reverse().to_multiset().insert(s.last()));
    }
}

/// Candidates with no papers hold no papers between them.
proof fn lemma_all_papers_zero<'a, S: HowSplitByCountNumber, T>(ps: Seq<VotesWithMultipleTransferValues<'a, S, T>>)
    requires
        forall|c: int| 0 <= c < ps.len() ==> (#[trigger] ps[c]).by_provenance@.len() == 0,
    ensures
        all_papers(ps) == 0,
    decreases ps.len(),
{
    if ps.len() > 0 {
        lemma_all_papers_zero(ps.drop_last());
        assert(ps.last().by_provenance@.len() == 0);
    }
}

} // verus!
