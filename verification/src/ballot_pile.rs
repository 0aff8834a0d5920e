//! Things to do with piles of ballots.

use vstd::prelude::*;
use std::collections::HashSet;
use crate::ballot_metadata::CandidateIndex;
use crate::ballot_paper::VoteSource;
use crate::distribution_of_preferences_transcript::CountIndex;
use crate::tally::{TallyValue, plus_capped, capped_sum};
use crate::util::{CollectAll, DetectUnique, distinct, SameValue, Keyed, detect_after, increasing_keys};
use crate::transfer_value::{TransferValue, same_value};
use crate::distribution_of_preferences_transcript::PortionOfReasonBeingDoneThisCount;

verus! {

broadcast use vstd::std_specs::hash::group_hash_axioms;

/// A number of pieces of paper.
/// This is distinct from votes which may be fractional in the presence of weights.
#[derive(Copy, Clone, Eq, PartialEq, Ord, PartialOrd, Debug, Structural)]
pub struct BallotPaperCount(pub usize);

impl TallyValue for BallotPaperCount {
    open spec fn value(&self) -> nat {
        self.0 as nat
    }

    open spec fn max_value() -> nat {
        usize::MAX as nat
    }

    proof fn lemma_bounded(t: Self) {
    }

    proof fn lemma_value_injective(a: Self, b: Self) {
    }

    fn zero() -> (res: Self) {
        BallotPaperCount(0)
    }

    open spec fn unit() -> nat {
        1
    }

    proof fn lemma_unit_positive() {
    }

    fn from_whole(n: usize) -> (res: Self) {
        BallotPaperCount(n)
    }

    fn max_tally() -> (res: Self) {
        BallotPaperCount(usize::MAX)
    }

    fn is_less(&self, other: &Self) -> (res: bool) {
        self.0 < other.0
    }

    fn is_same(&self, other: &Self) -> (res: bool) {
        self.0 == other.0
    }

    fn plus(&self, other: &Self) -> (res: Self) {
        BallotPaperCount(self.0 + other.0)
    }

    fn minus(&self, other: &Self) -> (res: Self) {
        BallotPaperCount(self.0 - other.0)
    }
}

/// A vote, resolved into BTL, that is somewhere through being distributed.
/// Preferences with index less than upto are ignored.
/// May consist of multiple independent identical votes.
#[derive(Copy, Clone, Debug)]
pub struct PartiallyDistributedVote<'a> {
    pub upto: usize,
    /// The number of voters.
    pub n: BallotPaperCount,
    /// Preferred candidates, with index 0 being the most favoured candidate.
    pub prefs: &'a [CandidateIndex],
    pub source: VoteSource<'a>,
}

/// The index of the first preference at or after position `i` that is for a continuing candidate, if any.
pub open spec fn first_continuing_from(prefs: Seq<CandidateIndex>, i: int, continuing: Set<usize>) -> Option<int>
    decreases prefs.len() - i,
{
    if i >= prefs.len() || i < 0 {
        None
    } else if continuing.contains(prefs[i].0) {
        Some(i)
    } else {
        first_continuing_from(prefs, i + 1, continuing)
    }
}

/// What a vote becomes when moved on to its next continuing candidate, if it has one.
pub open spec fn next_spec<'a>(v: PartiallyDistributedVote<'a>, continuing: Set<usize>) -> Option<PartiallyDistributedVote<'a>> {
    match first_continuing_from(v.prefs@, v.upto as int, continuing) {
        Some(i) => Some(PartiallyDistributedVote { upto: i as usize, n: v.n, prefs: v.prefs, source: v.source }),
        None => None,
    }
}

/// True iff the vote came from an above the line vote.
pub open spec fn is_atl_spec(v: PartiallyDistributedVote) -> bool {
    v.source is Atl
}

pub proof fn lemma_first_continuing_from(prefs: Seq<CandidateIndex>, i: int, continuing: Set<usize>)
    requires
        0 <= i,
    ensures
        match first_continuing_from(prefs, i, continuing) {
            Some(j) => i <= j < prefs.len() && continuing.contains(prefs[j].0) && forall|k: int|
                i <= k < j ==> !continuing.contains(#[trigger] prefs[k].0),
            None => forall|k: int| i <= k < prefs.len() ==> !continuing.contains(#[trigger] prefs[k].0),
        },
    decreases prefs.len() - i,
{
    if i < prefs.len() && !continuing.contains(prefs[i].0) {
        lemma_first_continuing_from(prefs, i + 1, continuing);
    }
}

impl<'a> PartiallyDistributedVote<'a> {
    /// A vote from `n` identical ballot papers with the given preferences, not yet distributed.
    pub fn new(n: usize, prefs: &'a [CandidateIndex], source: VoteSource<'a>) -> (res: Self)
        ensures
            res.upto == 0,
            res.n == BallotPaperCount(n),
            res.prefs == prefs,
            res.source == source,
    {
        PartiallyDistributedVote { upto: 0, n: BallotPaperCount(n), prefs, source }
    }

    /// True iff all preferences have been used.
    pub fn exhausted(&self) -> (res: bool)
        ensures
            res == (self.upto == self.prefs@.len()),
    {
        self.upto == self.prefs.len()
    }

    /// The candidate the vote currently sits with.
    pub fn candidate(&self) -> (res: CandidateIndex)
        requires
            self.upto < self.prefs@.len(),
        ensures
            res == self.prefs@[self.upto as int],
    {
        self.prefs[self.upto]
    }

    /// Move on to the first preference (at or after the current one) for a continuing candidate.
    pub fn next(&self, continuing: &HashSet<usize>) -> (res: Option<Self>)
        ensures
            res == next_spec(*self, continuing@),
    {
        let mut i = self.upto;
        while i < self.prefs.len()
            invariant
                self.upto <= i,
                first_continuing_from(self.prefs@, self.upto as int, continuing@) == first_continuing_from(
                    self.prefs@,
                    i as int,
                    continuing@,
                ),
            decreases self.prefs@.len() - i,
        {
            if continuing.contains(&self.prefs[i].0) {
                return Some(PartiallyDistributedVote { upto: i, n: self.n, prefs: self.prefs, source: self.source });
            }
            i = i + 1;
        }
        None
    }

    /// True iff it is an above the line vote.
    pub fn is_atl(&self) -> (res: bool)
        ensures
            res == is_atl_spec(*self),
    {
        match self.source {
            VoteSource::Btl(_) => false,
            VoteSource::Atl(_) => true,
        }
    }
}

/// Where a pile of votes came from.
pub struct PileProvenance<Tally> {
    /// The counts that papers in the pile were received in.
    pub counts_comes_from: CollectAll<CountIndex>,
    /// If there is a unique time the transfer value was created, hold it.
    pub when_tv_created: Option<CountIndex>,
    /// The number of actual votes this translated to.
    pub tally: Tally,
}

impl<Tally: TallyValue> PileProvenance<Tally> {
    /// Record that some more votes, worth `tally`, came from the given count.
    /// The tally stops at the largest representable value rather than overflowing.
    pub fn add(&mut self, count_index: CountIndex, when_tv_created: Option<CountIndex>, tally: Tally)
        requires
            distinct(old(self).counts_comes_from.all@),
        ensures
            distinct(final(self).counts_comes_from.all@),
            final(self).counts_comes_from.collected() == old(self).counts_comes_from.collected().insert(count_index),
            final(self).when_tv_created == if old(self).when_tv_created == when_tv_created {
                when_tv_created
            } else {
                None
            },
            final(self).tally.value() == capped_sum::<Tally>(old(self).tally.value(), tally.value()),
    {
        self.counts_comes_from.add(count_index);
        if self.when_tv_created != when_tv_created {
            self.when_tv_created = None;
        }
        self.tally = plus_capped(&self.tally, &tally);
    }
}


/// The number of ballot papers in a list of votes.
pub open spec fn total_papers(votes: Seq<PartiallyDistributedVote>) -> nat
    decreases votes.len(),
{
    if votes.len() == 0 {
        0
    } else {
        total_papers(votes.drop_last()) + votes.last().n.0 as nat
    }
}

/// The number of above the line ballot papers in a list of votes.
pub open spec fn total_atl_papers(votes: Seq<PartiallyDistributedVote>) -> nat
    decreases votes.len(),
{
    if votes.len() == 0 {
        0
    } else {
        total_atl_papers(votes.drop_last()) + if is_atl_spec(votes.last()) {
            votes.last().n.0 as nat
        } else {
            0nat
        }
    }
}

/// Above the line papers are a subset of all papers.
pub proof fn lemma_atl_papers_bounded(votes: Seq<PartiallyDistributedVote>)
    ensures
        total_atl_papers(votes) <= total_papers(votes),
    decreases votes.len(),
{
    if votes.len() > 0 {
        lemma_atl_papers_bounded(votes.drop_last());
    }
}

/// Paper counts add over concatenation.
pub proof fn lemma_totals_concat(a: Seq<PartiallyDistributedVote>, b: Seq<PartiallyDistributedVote>)
    ensures
        total_papers(a + b) == total_papers(a) + total_papers(b),
        total_atl_papers(a + b) == total_atl_papers(a) + total_atl_papers(b),
    decreases b.len(),
{
    if b.len() > 0 {
        lemma_totals_concat(a, b.drop_last());
        assert((a + b).drop_last() == a + b.drop_last());
    } else {
        assert(a + b == a);
    }
}

/// A pile of votes with the same transfer value, and whatever provenance matters.
/// In a physical count, this would typically be a single pile.
#[derive(Clone)]
pub struct VotesWithSameTransferValue<'a> {
    pub votes: Vec<PartiallyDistributedVote<'a>>,
    pub num_ballots: BallotPaperCount,
    pub num_atl_ballots: BallotPaperCount,
}

impl<'a> VotesWithSameTransferValue<'a> {
    /// The paper counts are those of the votes held.
    pub open spec fn wf(&self) -> bool {
        &&& self.num_ballots.0 == total_papers(self.votes@)
        &&& self.num_atl_ballots.0 == total_atl_papers(self.votes@)
    }

    /// An empty pile.
    pub fn default() -> (res: Self)
        ensures
            res.wf(),
            res.votes@.len() == 0,
    {
        VotesWithSameTransferValue { votes: Vec::new(), num_ballots: BallotPaperCount(0), num_atl_ballots: BallotPaperCount(0) }
    }

    /// The number of below the line ballots in this pile.
    pub fn num_btl_ballots(&self) -> (res: BallotPaperCount)
        requires
            self.wf(),
        ensures
            res.0 == total_papers(self.votes@) - total_atl_papers(self.votes@),
    {
        proof {
            lemma_atl_papers_bounded(self.votes@);
        }
        BallotPaperCount(self.num_ballots.0 - self.num_atl_ballots.0)
    }

    /// Add a vote to the pile.
    pub fn add_vote(&mut self, vote: PartiallyDistributedVote<'a>)
        requires
            old(self).wf(),
            old(self).num_ballots.0 + vote.n.0 <= usize::MAX,
        ensures
            final(self).wf(),
            final(self).votes@ == old(self).votes@.push(vote),
    {
        proof {
            lemma_atl_papers_bounded(self.votes@);
            assert(self.votes@.push(vote).drop_last() == self.votes@);
        }
        self.num_ballots = BallotPaperCount(self.num_ballots.0 + vote.n.0);
        if vote.is_atl() {
            self.num_atl_ballots = BallotPaperCount(self.num_atl_ballots.0 + vote.n.0);
        }
        self.votes.push(vote);
    }

    /// Add in some votes, and give a token that can be passed to `extract_last_parcel` to revert to the current state.
    pub fn add(&mut self, votes: &Vec<PartiallyDistributedVote<'a>>) -> (res: StateBeforeAddition)
        requires
            old(self).wf(),
            old(self).num_ballots.0 + total_papers(votes@) <= usize::MAX,
        ensures
            final(self).wf(),
            final(self).votes@ == old(self).votes@ + votes@,
            res.votes_len == old(self).votes@.len(),
    {
        let old_state = StateBeforeAddition { votes_len: self.votes.len() };
        let ghost start = self.votes@;
        for i in 0..votes.len()
            invariant
                self.wf(),
                self.votes@ == start + votes@.take(i as int),
                total_papers(start) + total_papers(votes@) <= usize::MAX,
        {
            proof {
                lemma_totals_concat(votes@.take(i as int), votes@.skip(i as int));
                assert(votes@.take(i as int) + votes@.skip(i as int) == votes@);
                lemma_totals_concat(start, votes@.take(i as int));
                assert(votes@.skip(i as int).drop_last() + seq![votes@.last()] == votes@.skip(i as int));
                lemma_totals_concat(seq![votes@[i as int]], votes@.skip(i + 1));
                assert(seq![votes@[i as int]] + votes@.skip(i + 1) == votes@.skip(i as int));
                assert(seq![votes@[i as int]].drop_last().len() == 0);
            }
            self.add_vote(votes[i]);
            assert(votes@.take(i + 1) == votes@.take(i as int).push(votes@[i as int]));
        }
        assert(votes@.take(votes.len() as int) == votes@);
        old_state
    }

    /// Revert to the prior state with a token from `add`, returning the votes removed. Used to get the last parcel.
    pub fn extract_last_parcel(&mut self, old_state: StateBeforeAddition) -> (res: VotesWithSameTransferValue<'a>)
        requires
            old(self).wf(),
            old_state.votes_len <= old(self).votes@.len(),
        ensures
            final(self).wf(),
            res.wf(),
            final(self).votes@ == old(self).votes@.take(old_state.votes_len as int),
            res.votes@ == old(self).votes@.skip(old_state.votes_len as int),
    {
        proof {
            lemma_totals_concat(self.votes@.take(old_state.votes_len as int), self.votes@.skip(old_state.votes_len as int));
            assert(self.votes@.take(old_state.votes_len as int) + self.votes@.skip(old_state.votes_len as int) == self.votes@);
            lemma_atl_papers_bounded(self.votes@.skip(old_state.votes_len as int));
        }
        let tail = self.votes.split_off(old_state.votes_len);
        let mut res = VotesWithSameTransferValue::default();
        for i in 0..tail.len()
            invariant
                res.wf(),
                res.votes@ == tail@.take(i as int),
                total_papers(tail@) <= usize::MAX,
        {
            proof {
                lemma_totals_concat(tail@.take(i as int), tail@.skip(i as int));
                assert(tail@.take(i as int) + tail@.skip(i as int) == tail@);
                lemma_totals_concat(seq![tail@[i as int]], tail@.skip(i + 1));
                assert(seq![tail@[i as int]] + tail@.skip(i + 1) == tail@.skip(i as int));
                assert(seq![tail@[i as int]].drop_last().len() == 0);
            }
            res.add_vote(tail[i]);
            assert(tail@.take(i + 1) == tail@.take(i as int).push(tail@[i as int]));
        }
        assert(tail@.take(tail.len() as int) == tail@);
        self.num_atl_ballots = BallotPaperCount(self.num_atl_ballots.0 - res.num_atl_ballots.0);
        self.num_ballots = BallotPaperCount(self.num_ballots.0 - res.num_ballots.0);
        res
    }
}

/// Adding votes to a pile and then extracting the last parcel with the token that `add` gave
/// puts the pile back as it was and hands back exactly the votes that were added.
pub proof fn lemma_extract_undoes_add<'a>(
    before: Seq<PartiallyDistributedVote<'a>>,
    added: Seq<PartiallyDistributedVote<'a>>,
)
    ensures
        (before + added).take(before.len() as int) == before,
        (before + added).skip(before.len() as int) == added,
{
    assert((before + added).take(before.len() as int) =~= before);
    assert((before + added).skip(before.len() as int) =~= added);
}

/// For jurisdictions that use a last parcel, sufficient information to revert to an earlier
/// state. Used with `VotesWithSameTransferValue`.
pub struct StateBeforeAddition {
    /// The length of the votes vector.
    pub votes_len: usize,
}


/// The candidate a distributed vote now sits with.
pub open spec fn current_candidate(v: PartiallyDistributedVote) -> usize {
    v.prefs@[v.upto as int].0
}

/// The votes (moved on to their next continuing preference) that go to candidate `c`, in order.
pub open spec fn votes_going_to<'a>(votes: Seq<PartiallyDistributedVote<'a>>, continuing: Set<usize>, c: int) -> Seq<PartiallyDistributedVote<'a>>
    decreases votes.len(),
{
    if votes.len() == 0 {
        Seq::empty()
    } else {
        let rest = votes_going_to(votes.drop_last(), continuing, c);
        match next_spec(votes.last(), continuing) {
            Some(n) => if current_candidate(n) == c {
                rest.push(n)
            } else {
                rest
            },
            None => rest,
        }
    }
}

/// The number of papers that have no further continuing preference.
pub open spec fn exhausted_papers(votes: Seq<PartiallyDistributedVote>, continuing: Set<usize>, atl_only: bool) -> nat
    decreases votes.len(),
{
    if votes.len() == 0 {
        0
    } else {
        exhausted_papers(votes.drop_last(), continuing, atl_only) + if next_spec(votes.last(), continuing) is None && (!atl_only
            || is_atl_spec(votes.last())) {
            votes.last().n.0 as nat
        } else {
            0nat
        }
    }
}

pub proof fn lemma_distribution_bounded(votes: Seq<PartiallyDistributedVote>, continuing: Set<usize>, c: int)
    ensures
        total_papers(votes_going_to(votes, continuing, c)) <= total_papers(votes),
        exhausted_papers(votes, continuing, false) <= total_papers(votes),
        exhausted_papers(votes, continuing, true) <= exhausted_papers(votes, continuing, false),
    decreases votes.len(),
{
    if votes.len() > 0 {
        lemma_distribution_bounded(votes.drop_last(), continuing, c);
        let rest = votes_going_to(votes.drop_last(), continuing, c);
        match next_spec(votes.last(), continuing) {
            Some(n) => {
                if current_candidate(n) == c {
                    assert(rest.push(n).drop_last() == rest);
                }
            },
            None => {},
        }
    }
}

/// The number of papers going to each of the candidates below `n`, all together.
pub open spec fn papers_going_to_all(votes: Seq<PartiallyDistributedVote>, continuing: Set<usize>, n: nat) -> nat
    decreases n,
{
    if n == 0 {
        0
    } else {
        papers_going_to_all(votes, continuing, (n - 1) as nat) + total_papers(votes_going_to(votes, continuing, n - 1))
    }
}

/// A vote going to candidate `target` adds its papers to the total over the candidates below
/// `n` exactly when `target` is one of them.
proof fn lemma_papers_going_to_all_step(
    votes: Seq<PartiallyDistributedVote>,
    continuing: Set<usize>,
    n: nat,
    x: PartiallyDistributedVote,
)
    ensures
        papers_going_to_all(votes.push(x), continuing, n) == papers_going_to_all(votes, continuing, n) + match next_spec(
            x,
            continuing,
        ) {
            Some(m) => if current_candidate(m) < n {
                x.n.0 as nat
            } else {
                0nat
            },
            None => 0nat,
        },
    decreases n,
{
    if n > 0 {
        lemma_papers_going_to_all_step(votes, continuing, (n - 1) as nat, x);
        let c = n - 1;
        assert(votes.push(x).drop_last() == votes);
        assert(votes.push(x).last() == x);
        let rest = votes_going_to(votes, continuing, c);
        match next_spec(x, continuing) {
            Some(m) => {
                if current_candidate(m) == c {
                    assert(rest.push(m).drop_last() == rest);
                }
            },
            None => {},
        }
    }
}

/// Distributing votes among the continuing candidates (all below `n`) loses no papers: those
/// going to the candidates and those exhausted add up to all of them.
pub proof fn lemma_distribution_conserves_papers(votes: Seq<PartiallyDistributedVote>, continuing: Set<usize>, n: nat)
    requires
        forall|c: usize| continuing.contains(c) ==> c < n,
    ensures
        papers_going_to_all(votes, continuing, n) + exhausted_papers(votes, continuing, false) == total_papers(votes),
    decreases votes.len(),
{
    if votes.len() > 0 {
        let prefix = votes.drop_last();
        let x = votes.last();
        lemma_distribution_conserves_papers(prefix, continuing, n);
        assert(prefix.push(x) == votes);
        lemma_papers_going_to_all_step(prefix, continuing, n, x);
        match next_spec(x, continuing) {
            Some(m) => {
                lemma_first_continuing_from(x.prefs@, x.upto as int, continuing);
                let i = first_continuing_from(x.prefs@, x.upto as int, continuing)->0;
                assert(x.prefs@.len() <= usize::MAX) by {
                    broadcast use vstd::slice::axiom_spec_len;
                    assert(x.prefs.len() as int == x.prefs@.len());
                }
                assert(m.upto as int == i);
                assert(continuing.contains(current_candidate(m)));
                assert(current_candidate(m) < n);
            },
            None => {},
        }
        assert(exhausted_papers(votes, continuing, false) == exhausted_papers(prefix, continuing, false) + if next_spec(
            x,
            continuing,
        ) is None {
            x.n.0 as nat
        } else {
            0nat
        });
    } else {
        lemma_papers_going_to_all_zero(votes, continuing, n);
    }
}

proof fn lemma_papers_going_to_all_zero(votes: Seq<PartiallyDistributedVote>, continuing: Set<usize>, n: nat)
    requires
        votes.len() == 0,
    ensures
        papers_going_to_all(votes, continuing, n) == 0,
    decreases n,
{
    if n > 0 {
        lemma_papers_going_to_all_zero(votes, continuing, (n - 1) as nat);
    }
}

proof fn lemma_total_prefix(votes: Seq<PartiallyDistributedVote>, i: int)
    requires
        0 <= i <= votes.len(),
    ensures
        total_papers(votes.take(i)) <= total_papers(votes),
{
    lemma_totals_concat(votes.take(i), votes.skip(i));
    assert(votes.take(i) + votes.skip(i) == votes);
}

/// Every candidate a vote could be passed on to (a continuing candidate at or after its
/// current preference) is below `n`; so it is when all the preferences are below `n`.
pub open spec fn reachable_below(votes: Seq<PartiallyDistributedVote>, continuing: Set<usize>, n: nat) -> bool {
    forall|i: int, k: int|
        0 <= i < votes.len() && votes[i].upto <= k < votes[i].prefs@.len() && continuing.contains(
            #[trigger] votes[i].prefs@[k].0,
        ) ==> votes[i].prefs@[k].0 < n
}

/// Votes distributed amongst continuing candidates.
pub struct DistributedVotes<'a> {
    pub by_candidate: Vec<VotesWithSameTransferValue<'a>>,
    pub exhausted: BallotPaperCount,
    pub exhausted_atl: BallotPaperCount,
}

impl<'a> DistributedVotes<'a> {
    /// Move each vote on to its next continuing candidate, gathering them by candidate;
    /// votes with no continuing candidate left are exhausted.
    pub fn distribute(votes: &Vec<PartiallyDistributedVote<'a>>, continuing_candidates: &HashSet<usize>, num_candidates: usize) -> (res: Self)
        requires
            reachable_below(votes@, continuing_candidates@, num_candidates as nat),
            total_papers(votes@) <= usize::MAX,
        ensures
            res.by_candidate@.len() == num_candidates,
            forall|c: int|
                0 <= c < num_candidates ==> (#[trigger] res.by_candidate@[c]).wf() && res.by_candidate@[c].votes@
                    == votes_going_to(votes@, continuing_candidates@, c),
            res.exhausted.0 == exhausted_papers(votes@, continuing_candidates@, false),
            res.exhausted_atl.0 == exhausted_papers(votes@, continuing_candidates@, true),
    {
        let mut by_candidate: Vec<VotesWithSameTransferValue<'a>> = Vec::new();
        for c in 0..num_candidates
            invariant
                by_candidate@.len() == c,
                forall|d: int| 0 <= d < c ==> (#[trigger] by_candidate@[d]).wf() && by_candidate@[d].votes@.len() == 0,
        {
            by_candidate.push(VotesWithSameTransferValue::default());
        }
        let mut exhausted = BallotPaperCount(0);
        let mut exhausted_atl = BallotPaperCount(0);
        for i in 0..votes.len()
            invariant
                by_candidate@.len() == num_candidates,
                reachable_below(votes@, continuing_candidates@, num_candidates as nat),
                total_papers(votes@) <= usize::MAX,
                forall|d: int|
                    0 <= d < num_candidates ==> (#[trigger] by_candidate@[d]).wf() && by_candidate@[d].votes@
                        == votes_going_to(votes@.take(i as int), continuing_candidates@, d),
                exhausted.0 == exhausted_papers(votes@.take(i as int), continuing_candidates@, false),
                exhausted_atl.0 == exhausted_papers(votes@.take(i as int), continuing_candidates@, true),
        {
            let vote = votes[i];
            let prefs_len = vote.prefs.len();
            proof {
                assert(votes@.take(i + 1).drop_last() == votes@.take(i as int));
                lemma_total_prefix(votes@, i + 1);
            }
            if let Some(next) = vote.next(continuing_candidates) {
                proof {
                    lemma_first_continuing_from(vote.prefs@, vote.upto as int, continuing_candidates@);
                }
                let c = next.candidate().0;
                proof {
                    lemma_distribution_bounded(votes@.take(i + 1), continuing_candidates@, c as int);
                    let j = first_continuing_from(vote.prefs@, vote.upto as int, continuing_candidates@)->0;
                    assert(next_spec(vote, continuing_candidates@) == Some(next));
                    assert(first_continuing_from(vote.prefs@, vote.upto as int, continuing_candidates@) is Some);
                    assert(j < vote.prefs@.len());
                    assert(next.upto == j);
                    assert(continuing_candidates@.contains(c));
                    assert(votes@[i as int].prefs@[j].0 == c);
                    assert(c < num_candidates);
                    assert(votes@.take(i + 1).last() == vote);
                    assert(votes_going_to(votes@.take(i + 1), continuing_candidates@, c as int) == votes_going_to(
                        votes@.take(i as int),
                        continuing_candidates@,
                        c as int,
                    ).push(next));
                    assert(votes_going_to(votes@.take(i + 1), continuing_candidates@, c as int).drop_last()
                        == votes_going_to(votes@.take(i as int), continuing_candidates@, c as int));
                    assert(by_candidate@[c as int].wf());
                }
                by_candidate[c].add_vote(next);
            } else {
                proof {
                    lemma_distribution_bounded(votes@.take(i + 1), continuing_candidates@, 0);
                }
                exhausted = BallotPaperCount(exhausted.0 + vote.n.0);
                if vote.is_atl() {
                    exhausted_atl = BallotPaperCount(exhausted_atl.0 + vote.n.0);
                }
            }
        }
        assert(votes@.take(votes.len() as int) == votes@);
        DistributedVotes { by_candidate, exhausted, exhausted_atl }
    }
}


/// Different jurisdictions split up parcels of papers by their provenance in different ways. This abstracts that.
pub trait HowSplitByCountNumber {
    type KeyToDivide;

    /// A copy of a key.
    fn copy_key(a: &Self::KeyToDivide) -> (res: Self::KeyToDivide)
        ensures
            res == *a,
    ;

    /// True iff two keys are the same.
    fn same_key(a: &Self::KeyToDivide, b: &Self::KeyToDivide) -> (res: bool)
        ensures
            res == (*a == *b),
    ;

    /// Whether a key can be given for papers with this history.
    spec fn key_defined(when_tv_created: Option<CountIndex>) -> bool;

    /// A key can always be given when the transfer value has a known time of creation.
    proof fn lemma_key_defined_when_known(c: CountIndex)
        ensures
            Self::key_defined(Some(c)),
    ;

    /// Whether a key can be given for papers with this history.
    fn is_key_defined(when_tv_created: Option<CountIndex>) -> (res: bool)
        ensures
            res == Self::key_defined(when_tv_created),
    ;

    /// The parcel that papers received at `count_index`, with a transfer value created at
    /// `when_tv_created`, belong to.
    spec fn spec_key(count_index: CountIndex, when_tv_created: Option<CountIndex>) -> Self::KeyToDivide;

    /// The parcel that papers received at `count_index`, with a transfer value created at
    /// `when_tv_created`, belong to.
    fn key(count_index: CountIndex, when_tv_created: Option<CountIndex>) -> (res: Self::KeyToDivide)
        requires
            Self::key_defined(when_tv_created),
        ensures
            res == Self::spec_key(count_index, when_tv_created),
    ;
}

/// Simple, don't care about the count number, just the value of the transfer value.
pub struct DoNotSplitByCountNumber {}

impl HowSplitByCountNumber for DoNotSplitByCountNumber {
    type KeyToDivide = ();

    open spec fn key_defined(when_tv_created: Option<CountIndex>) -> bool {
        true
    }

    proof fn lemma_key_defined_when_known(c: CountIndex) {
    }

    fn is_key_defined(when_tv_created: Option<CountIndex>) -> (res: bool) {
        true
    }

    open spec fn spec_key(count_index: CountIndex, when_tv_created: Option<CountIndex>) -> () {
        ()
    }

    fn key(count_index: CountIndex, when_tv_created: Option<CountIndex>) -> (res: ()) {
    }

    fn same_key(a: &(), b: &()) -> (res: bool) {
        true
    }

    fn copy_key(a: &()) -> (res: ()) {
    }
}

/// Treat each count number as a separate parcel.
pub struct FullySplitByCountNumber {}

impl HowSplitByCountNumber for FullySplitByCountNumber {
    type KeyToDivide = CountIndex;

    open spec fn key_defined(when_tv_created: Option<CountIndex>) -> bool {
        true
    }

    proof fn lemma_key_defined_when_known(c: CountIndex) {
    }

    fn is_key_defined(when_tv_created: Option<CountIndex>) -> (res: bool) {
        true
    }

    open spec fn spec_key(count_index: CountIndex, when_tv_created: Option<CountIndex>) -> CountIndex {
        count_index
    }

    fn key(count_index: CountIndex, when_tv_created: Option<CountIndex>) -> (res: CountIndex) {
        count_index
    }

    fn same_key(a: &CountIndex, b: &CountIndex) -> (res: bool) {
        a.0 == b.0
    }

    fn copy_key(a: &CountIndex) -> (res: CountIndex) {
        *a
    }
}

/// Treat the first count as a separate parcel from all other counts.
pub struct SplitFirstCount {}

impl HowSplitByCountNumber for SplitFirstCount {
    type KeyToDivide = bool;

    open spec fn key_defined(when_tv_created: Option<CountIndex>) -> bool {
        true
    }

    proof fn lemma_key_defined_when_known(c: CountIndex) {
    }

    fn is_key_defined(when_tv_created: Option<CountIndex>) -> (res: bool) {
        true
    }

    open spec fn spec_key(count_index: CountIndex, when_tv_created: Option<CountIndex>) -> bool {
        count_index.0 == 0
    }

    fn key(count_index: CountIndex, when_tv_created: Option<CountIndex>) -> (res: bool) {
        count_index.0 == 0
    }

    fn same_key(a: &bool, b: &bool) -> (res: bool) {
        *a == *b
    }

    fn copy_key(a: &bool) -> (res: bool) {
        *a
    }
}

/// Split by when the transfer value was created.
pub struct SplitByWhenTransferValueWasCreated {}

impl HowSplitByCountNumber for SplitByWhenTransferValueWasCreated {
    type KeyToDivide = CountIndex;

    open spec fn key_defined(when_tv_created: Option<CountIndex>) -> bool {
        when_tv_created is Some
    }

    proof fn lemma_key_defined_when_known(c: CountIndex) {
    }

    fn is_key_defined(when_tv_created: Option<CountIndex>) -> (res: bool) {
        when_tv_created.is_some()
    }

    open spec fn spec_key(count_index: CountIndex, when_tv_created: Option<CountIndex>) -> CountIndex {
        when_tv_created->0
    }

    fn key(count_index: CountIndex, when_tv_created: Option<CountIndex>) -> (res: CountIndex) {
        when_tv_created.unwrap()
    }

    fn same_key(a: &CountIndex, b: &CountIndex) -> (res: bool) {
        a.0 == b.0
    }

    fn copy_key(a: &CountIndex) -> (res: CountIndex) {
        *a
    }
}

} // verus!

verus! {

/// What is needed to take the last parcel back out of a pile.
#[derive(Copy, Clone, Debug)]
pub struct LastParcelInfo {
    pub prior_state_votes_len: usize,
    pub transfer_value: TransferValue,
    pub when_tv_created: Option<CountIndex>,
    pub count_index: CountIndex,
}

/// The key of a pile: its parcel, and the transfer value of its papers.
pub type ProvenanceKey<K> = (K, TransferValue);

/// A set of votes potentially with multiple transfer values or sources, typically the votes given
/// to a particular candidate, held in piles by parcel and transfer value.
pub struct VotesWithMultipleTransferValues<'a, S: HowSplitByCountNumber, Tally> {
    pub last_parcel: Option<LastParcelInfo>,
    pub by_provenance: Vec<(ProvenanceKey<S::KeyToDivide>, (PileProvenance<Tally>, VotesWithSameTransferValue<'a>))>,
}

/// The pile's key is for the given parcel and a transfer value of the same value.
pub open spec fn key_matches<K>(k: ProvenanceKey<K>, parcel: K, tv: TransferValue) -> bool {
    k.0 == parcel && same_value(k.1, tv)
}

/// The first pile with a matching key, if any.
pub open spec fn find_pile<'a, K, Tally>(
    piles: Seq<(ProvenanceKey<K>, (PileProvenance<Tally>, VotesWithSameTransferValue<'a>))>,
    parcel: K,
    tv: TransferValue,
) -> Option<int>
    decreases piles.len(),
{
    if piles.len() == 0 {
        None
    } else {
        match find_pile(piles.drop_last(), parcel, tv) {
            Some(i) => Some(i),
            None => if key_matches(piles.last().0, parcel, tv) {
                Some(piles.len() - 1)
            } else {
                None
            },
        }
    }
}

/// Each pile is sound and its transfer value has a non-zero denominator.
pub open spec fn piles_wf<'a, K, Tally>(piles: Seq<(ProvenanceKey<K>, (PileProvenance<Tally>, VotesWithSameTransferValue<'a>))>) -> bool {
    forall|i: int|
        0 <= i < piles.len() ==> (#[trigger] piles[i]).1.1.wf() && piles[i].0.1.wf() && distinct(
            piles[i].1.0.counts_comes_from.all@,
        )
}

/// The number of papers in all the piles.
pub open spec fn papers_in<'a, K, Tally>(piles: Seq<(ProvenanceKey<K>, (PileProvenance<Tally>, VotesWithSameTransferValue<'a>))>) -> nat
    decreases piles.len(),
{
    if piles.len() == 0 {
        0
    } else {
        papers_in(piles.drop_last()) + piles.last().1.1.num_ballots.0 as nat
    }
}

/// The number of ATL papers in all the piles.
pub open spec fn atl_papers_in<'a, K, Tally>(piles: Seq<(ProvenanceKey<K>, (PileProvenance<Tally>, VotesWithSameTransferValue<'a>))>) -> nat
    decreases piles.len(),
{
    if piles.len() == 0 {
        0
    } else {
        atl_papers_in(piles.drop_last()) + piles.last().1.1.num_atl_ballots.0 as nat
    }
}

/// The papers of two lists of piles together.
pub proof fn lemma_papers_in_concat<'a, K, Tally>(
    a: Seq<(ProvenanceKey<K>, (PileProvenance<Tally>, VotesWithSameTransferValue<'a>))>,
    b: Seq<(ProvenanceKey<K>, (PileProvenance<Tally>, VotesWithSameTransferValue<'a>))>,
)
    ensures
        papers_in(a + b) == papers_in(a) + papers_in(b),
    decreases b.len(),
{
    if b.len() == 0 {
        assert(a + b == a);
    } else {
        lemma_papers_in_concat(a, b.drop_last());
        assert((a + b).drop_last() == a + b.drop_last());
    }
}

/// Replacing a pile changes the papers by the difference between the two piles.
pub proof fn lemma_papers_in_update<'a, K, Tally>(
    piles: Seq<(ProvenanceKey<K>, (PileProvenance<Tally>, VotesWithSameTransferValue<'a>))>,
    i: int,
    p: (ProvenanceKey<K>, (PileProvenance<Tally>, VotesWithSameTransferValue<'a>)),
)
    requires
        0 <= i < piles.len(),
    ensures
        papers_in(piles.update(i, p)) + piles[i].1.1.num_ballots.0 == papers_in(piles) + p.1.1.num_ballots.0,
{
    let a = piles.take(i);
    let b = piles.skip(i + 1);
    lemma_papers_in_concat(a.push(piles[i]), b);
    lemma_papers_in_concat(a.push(p), b);
    assert(a.push(piles[i]) + b == piles);
    assert(a.push(p) + b == piles.update(i, p));
    assert(a.push(piles[i]).drop_last() == a);
    assert(a.push(p).drop_last() == a);
}

/// Removing a pile takes away its papers.
pub proof fn lemma_papers_in_remove<'a, K, Tally>(
    piles: Seq<(ProvenanceKey<K>, (PileProvenance<Tally>, VotesWithSameTransferValue<'a>))>,
    i: int,
)
    requires
        0 <= i < piles.len(),
    ensures
        papers_in(piles.remove(i)) + piles[i].1.1.num_ballots.0 == papers_in(piles),
{
    let a = piles.take(i);
    let b = piles.skip(i + 1);
    lemma_papers_in_concat(a.push(piles[i]), b);
    lemma_papers_in_concat(a, b);
    assert(a.push(piles[i]) + b == piles);
    assert(a + b == piles.remove(i));
    assert(a.push(piles[i]).drop_last() == a);
}

pub proof fn lemma_find_pile_in_range<'a, K, Tally>(
    piles: Seq<(ProvenanceKey<K>, (PileProvenance<Tally>, VotesWithSameTransferValue<'a>))>,
    parcel: K,
    tv: TransferValue,
)
    ensures
        find_pile(piles, parcel, tv) matches Some(i) ==> 0 <= i < piles.len() && key_matches(piles[i].0, parcel, tv),
        find_pile(piles, parcel, tv) is None ==> forall|i: int| 0 <= i < piles.len() ==> !key_matches(#[trigger] piles[i].0, parcel, tv),
    decreases piles.len(),
{
    if piles.len() > 0 {
        lemma_find_pile_in_range(piles.drop_last(), parcel, tv);
        if find_pile(piles, parcel, tv) is None {
            assert forall|i: int| 0 <= i < piles.len() implies !key_matches(#[trigger] piles[i].0, parcel, tv) by {
                if i < piles.len() - 1 {
                    assert(piles.drop_last()[i] == piles[i]);
                }
            }
        }
    }
}

impl<'a, S: HowSplitByCountNumber, Tally: TallyValue> VotesWithMultipleTransferValues<'a, S, Tally> {
    /// No votes.
    pub fn default() -> (res: Self)
        ensures
            res.last_parcel is None,
            res.by_provenance@.len() == 0,
    {
        VotesWithMultipleTransferValues { last_parcel: None, by_provenance: Vec::new() }
    }

    /// The pile with the given key, if any.
    fn find(&self, parcel: &S::KeyToDivide, tv: &TransferValue) -> (res: Option<usize>)
        ensures
            match find_pile(self.by_provenance@, *parcel, *tv) {
                Some(i) => res is Some && res->0 == i,
                None => res is None,
            },
    {
        let ghost piles = self.by_provenance@;
        for i in 0..self.by_provenance.len()
            invariant
                piles == self.by_provenance@,
                find_pile(piles.take(i as int), *parcel, *tv) is None,
        {
            assert(piles.take(i + 1).drop_last() =~= piles.take(i as int));
            let key = &self.by_provenance[i].0;
            if S::same_key(&key.0, parcel) && key.1.same_as(tv) {
                proof {
                    lemma_find_pile_stays(piles, *parcel, *tv, i + 1);
                }
                return Some(i);
            }
        }
        assert(piles.take(piles.len() as int) =~= piles);
        None
    }

    /// Add votes that came in the given count with the given transfer value.
    pub fn add(
        &mut self,
        votes: &VotesWithSameTransferValue<'a>,
        transfer_value: TransferValue,
        count_index: CountIndex,
        when_tv_created: Option<CountIndex>,
        tally: Tally,
    )
        requires
            piles_wf(old(self).by_provenance@),
            votes.wf(),
            transfer_value.wf(),
            S::key_defined(when_tv_created),
            find_pile(old(self).by_provenance@, S::spec_key(count_index, when_tv_created), transfer_value) matches Some(i)
                ==> old(self).by_provenance@[i].1.1.num_ballots.0 + total_papers(votes.votes@) <= usize::MAX,
        ensures
            piles_wf(final(self).by_provenance@),
            ({
                let parcel = S::spec_key(count_index, when_tv_created);
                let old_piles = old(self).by_provenance@;
                let piles = final(self).by_provenance@;
                match find_pile(old_piles, parcel, transfer_value) {
                    Some(i) => {
                        &&& piles.len() == old_piles.len()
                        &&& forall|j: int| 0 <= j < piles.len() && j != i ==> #[trigger] piles[j] == old_piles[j]
                        &&& piles[i].0 == old_piles[i].0
                        &&& piles[i].1.1.votes@ == old_piles[i].1.1.votes@ + votes.votes@
                        &&& piles[i].1.0.tally.value() == capped_sum::<Tally>(old_piles[i].1.0.tally.value(), tally.value())
                        &&& piles[i].1.0.counts_comes_from.collected() == old_piles[i].1.0.counts_comes_from.collected().insert(count_index)
                        &&& piles[i].1.0.when_tv_created == (if old_piles[i].1.0.when_tv_created == when_tv_created {
                            when_tv_created
                        } else {
                            None
                        })
                        &&& final(self).last_parcel == Some(LastParcelInfo {
                            prior_state_votes_len: old_piles[i].1.1.votes@.len() as usize,
                            transfer_value,
                            when_tv_created,
                            count_index,
                        })
                    },
                    None => {
                        &&& piles.len() == old_piles.len() + 1
                        &&& piles.drop_last() == old_piles
                        &&& piles.last().0 == (parcel, transfer_value)
                        &&& piles.last().1.1.votes@ == votes.votes@
                        &&& piles.last().1.0.tally.value() == tally.value()
                        &&& piles.last().1.0.counts_comes_from.collected() == Set::empty().insert(count_index)
                        &&& piles.last().1.0.when_tv_created == when_tv_created
                        &&& final(self).last_parcel == Some(LastParcelInfo {
                            prior_state_votes_len: 0,
                            transfer_value,
                            when_tv_created,
                            count_index,
                        })
                    },
                }
            }),
            papers_in(final(self).by_provenance@) == papers_in(old(self).by_provenance@) + total_papers(votes.votes@),
    {
        let parcel = S::key(count_index, when_tv_created);
        proof {
            lemma_find_pile_in_range(self.by_provenance@, parcel, transfer_value);
        }
        match self.find(&parcel, &transfer_value) {
            Some(i) => {
                let (key, (mut prov, mut pile)) = self.by_provenance.remove(i);
                let ghost old_pile = pile;
                prov.add(count_index, when_tv_created, tally);
                let prior = pile.add(&votes.votes);
                proof {
                    lemma_totals_concat(old_pile.votes@, votes.votes@);
                    assert(old(self).by_provenance@.remove(i as int).insert(i as int, (key, (prov, pile)))
                        == old(self).by_provenance@.update(i as int, (key, (prov, pile))));
                    lemma_papers_in_update(old(self).by_provenance@, i as int, (key, (prov, pile)));
                    assert(pile.num_ballots.0 == old_pile.num_ballots.0 + total_papers(votes.votes@));
                    assert(old_pile == old(self).by_provenance@[i as int].1.1);
                }
                self.by_provenance.insert(i, (key, (prov, pile)));
                self.last_parcel = Some(
                    LastParcelInfo { prior_state_votes_len: prior.votes_len, transfer_value, when_tv_created, count_index },
                );
                assert forall|j: int| 0 <= j < self.by_provenance@.len() implies (#[trigger] self.by_provenance@[j]).1.1.wf()
                    && self.by_provenance@[j].0.1.wf() && distinct(self.by_provenance@[j].1.0.counts_comes_from.all@) by {
                    if j != i {
                        assert(self.by_provenance@[j] == old(self).by_provenance@[j]);
                    }
                }
            },
            None => {
                let mut prov = PileProvenance {
                    counts_comes_from: CollectAll::default(),
                    when_tv_created,
                    tally: Tally::zero(),
                };
                proof {
                    Tally::lemma_bounded(tally);
                }
                prov.add(count_index, when_tv_created, tally);
                proof {
                    Tally::lemma_value_injective(prov.tally, tally);
                    assert(Seq::<CountIndex>::empty().to_set() =~= Set::<CountIndex>::empty());
                }
                let mut pile = VotesWithSameTransferValue::default();
                proof {
                    lemma_atl_papers_bounded(votes.votes@);
                }
                pile.add(&votes.votes);
                assert(Seq::<PartiallyDistributedVote<'a>>::empty() + votes.votes@ =~= votes.votes@);
                let ghost before = self.by_provenance@;
                self.by_provenance.push(((parcel, transfer_value), (prov, pile)));
                assert(self.by_provenance@.drop_last() == before);
                assert(pile.num_ballots.0 == total_papers(votes.votes@));
                self.last_parcel = Some(LastParcelInfo { prior_state_votes_len: 0, transfer_value, when_tv_created, count_index });
                assert forall|j: int| 0 <= j < self.by_provenance@.len() implies (#[trigger] self.by_provenance@[j]).1.1.wf()
                    && self.by_provenance@[j].0.1.wf() && distinct(self.by_provenance@[j].1.0.counts_comes_from.all@) by {
                    if j < before.len() {
                        assert(self.by_provenance@[j] == before[j]);
                    }
                }
            },
        }
    }

    /// The keys of all the piles.
    pub fn get_all_provenance_keys(&self) -> (res: Vec<ProvenanceKey<S::KeyToDivide>>)
        ensures
            res@ == self.by_provenance@.map_values(|p: (ProvenanceKey<S::KeyToDivide>, (PileProvenance<Tally>, VotesWithSameTransferValue<'a>))| p.0),
    {
        let mut res: Vec<ProvenanceKey<S::KeyToDivide>> = Vec::new();
        for i in 0..self.by_provenance.len()
            invariant
                res@ == self.by_provenance@.take(i as int).map_values(|p: (ProvenanceKey<S::KeyToDivide>, (PileProvenance<Tally>, VotesWithSameTransferValue<'a>))| p.0),
        {
            let key = &self.by_provenance[i].0;
            res.push((S::copy_key(&key.0), key.1));
            assert(self.by_provenance@.take(i + 1).map_values(|p: (ProvenanceKey<S::KeyToDivide>, (PileProvenance<Tally>, VotesWithSameTransferValue<'a>))| p.0)
                =~= res@);
        }
        assert(self.by_provenance@.take(self.by_provenance@.len() as int) =~= self.by_provenance@);
        res
    }

    /// The number of papers in all the piles.
    pub fn num_ballots(&self) -> (res: BallotPaperCount)
        requires
            papers_in(self.by_provenance@) <= usize::MAX,
        ensures
            res.0 == papers_in(self.by_provenance@),
    {
        let mut res: usize = 0;
        for i in 0..self.by_provenance.len()
            invariant
                papers_in(self.by_provenance@) <= usize::MAX,
                res == papers_in(self.by_provenance@.take(i as int)),
        {
            proof {
                assert(self.by_provenance@.take(i + 1).drop_last() =~= self.by_provenance@.take(i as int));
                lemma_papers_in_prefix(self.by_provenance@, i + 1);
            }
            res = res + self.by_provenance[i].1.1.num_ballots.0;
        }
        assert(self.by_provenance@.take(self.by_provenance@.len() as int) =~= self.by_provenance@);
        BallotPaperCount(res)
    }

    /// The number of ATL papers in all the piles.
    pub fn num_atl_ballots(&self) -> (res: BallotPaperCount)
        requires
            atl_papers_in(self.by_provenance@) <= usize::MAX,
        ensures
            res.0 == atl_papers_in(self.by_provenance@),
    {
        let mut res: usize = 0;
        for i in 0..self.by_provenance.len()
            invariant
                atl_papers_in(self.by_provenance@) <= usize::MAX,
                res == atl_papers_in(self.by_provenance@.take(i as int)),
        {
            proof {
                assert(self.by_provenance@.take(i + 1).drop_last() =~= self.by_provenance@.take(i as int));
                lemma_atl_papers_in_prefix(self.by_provenance@, i + 1);
            }
            res = res + self.by_provenance[i].1.1.num_atl_ballots.0;
        }
        assert(self.by_provenance@.take(self.by_provenance@.len() as int) =~= self.by_provenance@);
        BallotPaperCount(res)
    }

    /// Removes the last parcel from this object, returning the votes removed and where they came
    /// from. There must be a last parcel, still in its pile.
    pub fn extract_last_parcel(&mut self) -> (res: (VotesWithSameTransferValue<'a>, PortionOfReasonBeingDoneThisCount))
        requires
            piles_wf(old(self).by_provenance@),
            old(self).last_parcel is Some,
            S::key_defined(old(self).last_parcel->0.when_tv_created),
            ({
                let lp = old(self).last_parcel->0;
                let found = find_pile(old(self).by_provenance@, S::spec_key(lp.count_index, lp.when_tv_created), lp.transfer_value);
                found is Some && lp.prior_state_votes_len <= old(self).by_provenance@[found->0].1.1.votes@.len()
            }),
        ensures
            piles_wf(final(self).by_provenance@),
            final(self).last_parcel is None,
            ({
                let lp = old(self).last_parcel->0;
                let i = find_pile(old(self).by_provenance@, S::spec_key(lp.count_index, lp.when_tv_created), lp.transfer_value)->0;
                let old_piles = old(self).by_provenance@;
                let piles = final(self).by_provenance@;
                &&& piles.len() == old_piles.len()
                &&& forall|j: int| 0 <= j < piles.len() && j != i ==> #[trigger] piles[j] == old_piles[j]
                &&& piles[i].0 == old_piles[i].0
                &&& piles[i].1.0 == old_piles[i].1.0
                &&& piles[i].1.1.votes@ == old_piles[i].1.1.votes@.take(lp.prior_state_votes_len as int)
                &&& res.0.wf()
                &&& res.0.votes@ == old_piles[i].1.1.votes@.skip(lp.prior_state_votes_len as int)
                &&& res.1.transfer_value == Some(lp.transfer_value)
                &&& res.1.when_tv_created == lp.when_tv_created
                &&& res.1.papers_came_from_counts@ == seq![lp.count_index]
            }),
    {
        let lp = match self.last_parcel {
            Some(lp) => lp,
            None => {
                assert(false);
                return (VotesWithSameTransferValue::default(), PortionOfReasonBeingDoneThisCount {
                    transfer_value: None,
                    when_tv_created: None,
                    papers_came_from_counts: Vec::new(),
                });
            },
        };
        self.last_parcel = None;
        let parcel = S::key(lp.count_index, lp.when_tv_created);
        proof {
            lemma_find_pile_in_range(self.by_provenance@, parcel, lp.transfer_value);
        }
        let i = match self.find(&parcel, &lp.transfer_value) {
            Some(i) => i,
            None => {
                assert(false);
                0
            },
        };
        let (key, (prov, mut pile)) = self.by_provenance.remove(i);
        let res = pile.extract_last_parcel(StateBeforeAddition { votes_len: lp.prior_state_votes_len });
        let ghost before = self.by_provenance@;
        self.by_provenance.insert(i, (key, (prov, pile)));
        let mut papers_came_from_counts: Vec<CountIndex> = Vec::new();
        papers_came_from_counts.push(lp.count_index);
        let provenance = PortionOfReasonBeingDoneThisCount {
            transfer_value: Some(lp.transfer_value),
            when_tv_created: lp.when_tv_created,
            papers_came_from_counts,
        };
        assert forall|j: int| 0 <= j < self.by_provenance@.len() implies (#[trigger] self.by_provenance@[j]).1.1.wf()
            && self.by_provenance@[j].0.1.wf() && distinct(self.by_provenance@[j].1.0.counts_comes_from.all@) by {
            if j != i {
                assert(self.by_provenance@[j] == old(self).by_provenance@[j]);
            }
        }
        (res, provenance)
    }

    /// Take out the pile with the given key, if there is one.
    pub fn extract_all_ballots_with_given_provenance(&mut self, key: &ProvenanceKey<S::KeyToDivide>) -> (res: Option<(PileProvenance<Tally>, VotesWithSameTransferValue<'a>)>)
        requires
            piles_wf(old(self).by_provenance@),
        ensures
            piles_wf(final(self).by_provenance@),
            final(self).last_parcel == old(self).last_parcel,
            match find_pile(old(self).by_provenance@, key.0, key.1) {
                Some(i) => res == Some(old(self).by_provenance@[i].1) && final(self).by_provenance@ == old(self).by_provenance@.remove(i),
                None => res is None && final(self).by_provenance@ == old(self).by_provenance@,
            },
    {
        proof {
            lemma_find_pile_in_range(self.by_provenance@, key.0, key.1);
        }
        match self.find(&key.0, &key.1) {
            Some(i) => {
                let (_k, pile) = self.by_provenance.remove(i);
                assert forall|j: int| 0 <= j < self.by_provenance@.len() implies (#[trigger] self.by_provenance@[j]).1.1.wf()
                    && self.by_provenance@[j].0.1.wf() && distinct(self.by_provenance@[j].1.0.counts_comes_from.all@) by {
                    if j < i {
                        assert(self.by_provenance@[j] == old(self).by_provenance@[j]);
                    } else {
                        assert(self.by_provenance@[j] == old(self).by_provenance@[j + 1]);
                    }
                }
                Some(pile)
            },
            None => None,
        }
    }
}

impl<'a, S: HowSplitByCountNumber, Tally: TallyValue> VotesWithMultipleTransferValues<'a, S, Tally> {
    /// Extracts all the ballots, adding all together, ignoring everything but pieces of paper.
    /// Clears this object. Gives the tally of the ballots (stopping at the largest tally), the
    /// ballots, and where they came from: the transfer value and when it was created where those
    /// are the same for all the piles, and all the counts the papers were received in.
    #[verifier::loop_isolation(false)]
    pub fn extract_all_ballots_ignoring_transfer_value(&mut self) -> (res: (Tally, VotesWithSameTransferValue<'a>, PortionOfReasonBeingDoneThisCount))
        requires
            piles_wf(old(self).by_provenance@),
            papers_in(old(self).by_provenance@) <= usize::MAX,
        ensures
            final(self).by_provenance@.len() == 0,
            final(self).last_parcel == old(self).last_parcel,
            res.0.value() == tally_in(old(self).by_provenance@),
            res.1.wf(),
            res.1.votes@ == all_votes_in(old(self).by_provenance@),
            res.1.num_ballots.0 == papers_in(old(self).by_provenance@),
            res.2.transfer_value == detect_after(tvs_of(old(self).by_provenance@)).res,
            res.2.when_tv_created == match detect_after(whens_of(old(self).by_provenance@)).res {
                Some(w) => w,
                None => None,
            },
            res.2.papers_came_from_counts@.to_set() == counts_in(old(self).by_provenance@),
            increasing_keys(res.2.papers_came_from_counts@),
    {
        let mut piles = Vec::new();
        std::mem::swap(&mut piles, &mut self.by_provenance);
        let ghost orig = piles@;
        let mut tally = Tally::zero();
        let mut sum = VotesWithSameTransferValue::default();
        let mut counts: CollectAll<CountIndex> = CollectAll::default();
        let mut tvs: DetectUnique<TransferValue> = DetectUnique::default();
        let mut whens: DetectUnique<Option<CountIndex>> = DetectUnique::default();
        assert(orig.take(0) =~= Seq::<(ProvenanceKey<S::KeyToDivide>, (PileProvenance<Tally>, VotesWithSameTransferValue<'a>))>::empty());
        assert(sum.votes@ =~= Seq::<PartiallyDistributedVote<'a>>::empty());
        assert(counts.all@.to_set() =~= Set::<CountIndex>::empty());
        for i in 0..piles.len()
            invariant
                piles@ == orig,
                piles_wf(orig),
                papers_in(orig) <= usize::MAX,
                tally.value() == tally_in(orig.take(i as int)),
                sum.wf(),
                sum.votes@ == all_votes_in(orig.take(i as int)),
                distinct(counts.all@),
                counts.collected() == counts_in(orig.take(i as int)),
                tvs == detect_after(tvs_of(orig.take(i as int))),
                whens == detect_after(whens_of(orig.take(i as int))),
        {
            let ghost prefix = orig.take(i as int);
            let ghost next = orig.take(i + 1);
            assert(next.drop_last() =~= prefix);
            assert(next.last() == orig[i as int]);
            assert(tvs_of(next).drop_last() =~= tvs_of(prefix));
            assert(whens_of(next).drop_last() =~= whens_of(prefix));
            let pile = &piles[i];
            tally = plus_capped(&tally, &pile.1.0.tally);
            proof {
                assert(orig[i as int].1.1.wf());
                lemma_papers_in_prefix(orig, i + 1);
                assert(piles_wf(next)) by {
                    assert forall|j: int| 0 <= j < next.len() implies (#[trigger] next[j]).1.1.wf() && next[j].0.1.wf()
                        && distinct(next[j].1.0.counts_comes_from.all@) by {
                        assert(next[j] == orig[j]);
                    }
                }
                lemma_all_votes_in_papers(next);
                lemma_totals_concat(sum.votes@, pile.1.1.votes@);
            }
            let ghost before_sum = sum.votes@;
            sum.add(&pile.1.1.votes);
            let ghost before_counts = counts.collected();
            let from = &pile.1.0.counts_comes_from.all;
            let ghost fromv = from@;
            for j in 0..from.len()
                invariant
                    distinct(counts.all@),
                    counts.collected() == before_counts.union(fromv.take(j as int).to_set()),
            {
                let ghost mid = counts.collected();
                counts.add(from[j]);
                assert(fromv.take(j + 1) =~= fromv.take(j as int).push(fromv[j as int]));
                proof {
                    fromv.take(j as int).lemma_push_to_set_commute(fromv[j as int]);
                }
                assert(counts.collected() =~= before_counts.union(fromv.take(j + 1).to_set()));
            }
            assert(fromv.take(fromv.len() as int) =~= fromv);
            tvs.add(pile.0.1);
            whens.add(pile.1.0.when_tv_created);
            assert(counts.collected() =~= counts_in(next));
        }
        assert(orig.take(orig.len() as int) =~= orig);
        proof {
            lemma_all_votes_in_papers(orig);
        }
        let when_tv_created = match whens.take() {
            Some(w) => w,
            None => None,
        };
        let provenance = PortionOfReasonBeingDoneThisCount {
            transfer_value: tvs.take(),
            when_tv_created,
            papers_came_from_counts: counts.take(),
        };
        (tally, sum, provenance)
    }
}

/// All the votes in the piles, pile after pile.
pub open spec fn all_votes_in<'a, K, Tally>(piles: Seq<(ProvenanceKey<K>, (PileProvenance<Tally>, VotesWithSameTransferValue<'a>))>) -> Seq<PartiallyDistributedVote<'a>>
    decreases piles.len(),
{
    if piles.len() == 0 {
        Seq::empty()
    } else {
        all_votes_in(piles.drop_last()) + piles.last().1.1.votes@
    }
}

/// The tallies of the piles added up, stopping at the largest tally.
pub open spec fn tally_in<'a, K, Tally: TallyValue>(piles: Seq<(ProvenanceKey<K>, (PileProvenance<Tally>, VotesWithSameTransferValue<'a>))>) -> nat
    decreases piles.len(),
{
    if piles.len() == 0 {
        0
    } else {
        capped_sum::<Tally>(tally_in(piles.drop_last()), piles.last().1.0.tally.value())
    }
}

/// The transfer values of the piles.
pub open spec fn tvs_of<'a, K, Tally>(piles: Seq<(ProvenanceKey<K>, (PileProvenance<Tally>, VotesWithSameTransferValue<'a>))>) -> Seq<TransferValue> {
    piles.map_values(|p: (ProvenanceKey<K>, (PileProvenance<Tally>, VotesWithSameTransferValue<'a>))| p.0.1)
}

/// When the piles' transfer values were created, where unique.
pub open spec fn whens_of<'a, K, Tally>(piles: Seq<(ProvenanceKey<K>, (PileProvenance<Tally>, VotesWithSameTransferValue<'a>))>) -> Seq<Option<CountIndex>> {
    piles.map_values(|p: (ProvenanceKey<K>, (PileProvenance<Tally>, VotesWithSameTransferValue<'a>))| p.1.0.when_tv_created)
}

/// All the counts the piles' papers were received in.
pub open spec fn counts_in<'a, K, Tally>(piles: Seq<(ProvenanceKey<K>, (PileProvenance<Tally>, VotesWithSameTransferValue<'a>))>) -> Set<CountIndex>
    decreases piles.len(),
{
    if piles.len() == 0 {
        Set::empty()
    } else {
        counts_in(piles.drop_last()).union(piles.last().1.0.counts_comes_from.collected())
    }
}

/// The votes of the piles are as many papers as the piles hold.
proof fn lemma_all_votes_in_papers<'a, K, Tally>(piles: Seq<(ProvenanceKey<K>, (PileProvenance<Tally>, VotesWithSameTransferValue<'a>))>)
    requires
        piles_wf(piles),
    ensures
        total_papers(all_votes_in(piles)) == papers_in(piles),
    decreases piles.len(),
{
    if piles.len() > 0 {
        assert(piles_wf(piles.drop_last())) by {
            assert forall|i: int| 0 <= i < piles.drop_last().len() implies (#[trigger] piles.drop_last()[i]).1.1.wf()
                && piles.drop_last()[i].0.1.wf() && distinct(piles.drop_last()[i].1.0.counts_comes_from.all@) by {
                assert(piles.drop_last()[i] == piles[i]);
            }
        }
        lemma_all_votes_in_papers(piles.drop_last());
        lemma_totals_concat(all_votes_in(piles.drop_last()), piles.last().1.1.votes@);
        assert(piles[piles.len() - 1].1.1.wf());
    }
}

proof fn lemma_find_pile_stays<'a, K, Tally>(
    piles: Seq<(ProvenanceKey<K>, (PileProvenance<Tally>, VotesWithSameTransferValue<'a>))>,
    parcel: K,
    tv: TransferValue,
    m: int,
)
    requires
        0 < m <= piles.len(),
        find_pile(piles.take(m - 1), parcel, tv) is None,
        key_matches(piles[m - 1].0, parcel, tv),
    ensures
        find_pile(piles, parcel, tv) == Some(m - 1),
    decreases piles.len() - m,
{
    if m < piles.len() {
        assert(piles.drop_last().take(m - 1) =~= piles.take(m - 1));
        assert(piles.drop_last()[m - 1] == piles[m - 1]);
        lemma_find_pile_stays(piles.drop_last(), parcel, tv, m);
    } else {
        assert(piles.take(m - 1) =~= piles.drop_last());
    }
}

proof fn lemma_papers_in_prefix<'a, K, Tally>(piles: Seq<(ProvenanceKey<K>, (PileProvenance<Tally>, VotesWithSameTransferValue<'a>))>, i: int)
    requires
        0 <= i <= piles.len(),
    ensures
        papers_in(piles.take(i)) <= papers_in(piles),
    decreases piles.len() - i,
{
    if i < piles.len() {
        lemma_papers_in_prefix(piles, i + 1);
        assert(piles.take(i + 1).drop_last() =~= piles.take(i));
    } else {
        assert(piles.take(i) =~= piles);
    }
}

proof fn lemma_atl_papers_in_prefix<'a, K, Tally>(piles: Seq<(ProvenanceKey<K>, (PileProvenance<Tally>, VotesWithSameTransferValue<'a>))>, i: int)
    requires
        0 <= i <= piles.len(),
    ensures
        atl_papers_in(piles.take(i)) <= atl_papers_in(piles),
    decreases piles.len() - i,
{
    if i < piles.len() {
        lemma_atl_papers_in_prefix(piles, i + 1);
        assert(piles.take(i + 1).drop_last() =~= piles.take(i));
    } else {
        assert(piles.take(i) =~= piles);
    }
}

} // verus!
