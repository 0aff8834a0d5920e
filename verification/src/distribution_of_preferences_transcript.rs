//! The record of a distribution of preferences: what was done in each count and the state at its end.

use vstd::prelude::*;
use crate::ballot_metadata::{CandidateIndex, NumberOfCandidates};
use crate::ballot_pile::BallotPaperCount;
use crate::signed_version::{SignedVersion, signed_value};
use crate::tally::TallyValue;
use crate::transfer_value::{TransferValue, Fraction};
use crate::tie_resolution::TieResolutionExplicitDecision;
use crate::simple_list_of_votes::ListOfVotes;

verus! {

/// The index of a count. 0 means the first. This is different from the human readable
/// count, which may be more complex and have sub-counts as well.
#[derive(Copy, Clone, Debug, PartialEq, Eq, PartialOrd, Ord, Hash, Structural)]
pub struct CountIndex(pub usize);

/// Something measured for each candidate, plus the amounts that went to no candidate.
#[derive(Clone, Debug)]
pub struct PerCandidate<X> {
    /// the value for a given candidate.
    pub candidate: Vec<X>,
    /// something is exhausted if it can't go to a specific candidate as there are not enough preferences on a particular ballot.
    pub exhausted: X,
    /// something goes to rounding if it can't go to a specific candidate as fractions are not allowed.
    pub rounding: SignedVersion<X>,
    /// something gets set aside if some feature of the rules means it doesn't go to a particular candidate. None if not applicable.
    pub set_aside: Option<X>,
}

impl<X: TallyValue> PerCandidate<X> {
    /// Nothing for anyone.
    pub fn default() -> (res: Self)
        ensures
            res.candidate@.len() == 0,
            res.exhausted.value() == 0,
            signed_value(res.rounding) == 0,
            !res.rounding.negative,
            res.set_aside is None,
    {
        PerCandidate { candidate: Vec::new(), exhausted: X::zero(), rounding: SignedVersion::zero(), set_aside: None }
    }

    /// A value for each of `len` candidates, each `unknown_value`, and zero elsewhere.
    pub fn from_num_candidates(len: usize, unknown_value: X) -> (res: Self)
        ensures
            res.candidate@ == Seq::new(len as nat, |_i: int| unknown_value),
            res.exhausted.value() == 0,
            signed_value(res.rounding) == 0,
            !res.rounding.negative,
            res.set_aside is None,
    {
        let mut candidate: Vec<X> = Vec::new();
        for i in 0..len
            invariant
                candidate@ == Seq::new(i as nat, |_i: int| unknown_value),
        {
            candidate.push(unknown_value);
            assert(candidate@ =~= Seq::new((i + 1) as nat, |_i: int| unknown_value));
        }
        PerCandidate { candidate, exhausted: X::zero(), rounding: SignedVersion::zero(), set_aside: None }
    }
}

/// 0 and usize::MAX (which often means unknown) count as nothing.
pub open spec fn is_nothing(i: usize) -> bool {
    i == 0 || i == usize::MAX
}

/// The sum of a sequence of counts.
pub open spec fn sum_of(s: Seq<usize>) -> nat
    decreases s.len(),
{
    if s.len() == 0 {
        0
    } else {
        sum_of(s.drop_last()) + s.last() as nat
    }
}

/// Everything that is counted in a PerCandidate, before rounding.
pub open spec fn sum_before_rounding(p: PerCandidate<usize>) -> nat {
    p.exhausted as nat + sum_of(p.candidate@) + match p.set_aside {
        Some(s) => s as nat,
        None => 0,
    }
}

impl PerCandidate<usize> {
    /// See if every field is either 0 or usize::MAX (often meaning unknown).
    pub fn is_empty(&self) -> (res: bool)
        ensures
            res == (is_nothing(self.exhausted) && (forall|i: int| 0 <= i < self.candidate@.len() ==> is_nothing(#[trigger] self.candidate@[i]))
                && (self.set_aside matches Some(s) ==> is_nothing(s)) && is_nothing(self.rounding.value)),
    {
        if !(self.exhausted == 0 || self.exhausted == usize::MAX) {
            return false;
        }
        for i in 0..self.candidate.len()
            invariant
                forall|j: int| 0 <= j < i ==> is_nothing(#[trigger] self.candidate@[j]),
        {
            let v = self.candidate[i];
            if !(v == 0 || v == usize::MAX) {
                assert(!is_nothing(self.candidate@[i as int]));
                return false;
            }
        }
        if let Some(s) = self.set_aside {
            if !(s == 0 || s == usize::MAX) {
                return false;
            }
        }
        self.rounding.value == 0 || self.rounding.value == usize::MAX
    }

    /// The total of everything, rounding included.
    pub fn sum(&self) -> (res: usize)
        requires
            sum_before_rounding(*self) <= usize::MAX,
            self.rounding.negative ==> self.rounding.value <= sum_before_rounding(*self),
            !self.rounding.negative ==> sum_before_rounding(*self) + self.rounding.value <= usize::MAX,
        ensures
            res == sum_before_rounding(*self) + signed_value(self.rounding),
    {
        let mut res: usize = self.exhausted;
        for i in 0..self.candidate.len()
            invariant
                sum_before_rounding(*self) <= usize::MAX,
                res == self.exhausted + sum_of(self.candidate@.take(i as int)),
        {
            proof {
                assert(self.candidate@.take(i + 1).drop_last() == self.candidate@.take(i as int));
                lemma_sum_of_prefix(self.candidate@, i + 1);
            }
            res = res + self.candidate[i];
        }
        assert(self.candidate@.take(self.candidate@.len() as int) == self.candidate@);
        if let Some(s) = self.set_aside {
            res = res + s;
        }
        if self.rounding.negative {
            res = res - self.rounding.value;
        } else {
            res = res + self.rounding.value;
        }
        res
    }
}

/// A prefix sums to no more than the whole.
pub proof fn lemma_sum_of_prefix(s: Seq<usize>, i: int)
    requires
        0 <= i <= s.len(),
    ensures
        sum_of(s.take(i)) <= sum_of(s),
    decreases s.len() - i,
{
    if i < s.len() {
        lemma_sum_of_prefix(s, i + 1);
        assert(s.take(i + 1).drop_last() == s.take(i));
    } else {
        assert(s.take(i) == s);
    }
}

/// A value could not be read as a whole number.
#[derive(Debug, Clone)]
pub struct NotInteger {}

/// A value could not be read as a non-negative whole number.
#[derive(Debug, Clone)]
pub struct NotNonnegativeInteger {}

/// The state of affairs at the end of a count.
#[derive(Clone, Debug)]
pub struct EndCountStatus<Tally> {
    /// tallies for each candidate
    pub tallies: PerCandidate<Tally>,
    /// the number of pieces of paper for each candidate
    pub papers: PerCandidate<BallotPaperCount>,
    /// the number of above pieces of paper that are ATL.
    pub atl_papers: Option<PerCandidate<BallotPaperCount>>,
    /// usually not present list of all votes' positions.
    pub list_of_votes: Option<PerCandidate<ListOfVotes>>,
}

/// What a count was for.
#[derive(Clone, Debug)]
pub enum ReasonForCount {
    FirstPreferenceCount,
    ExcessDistribution(CandidateIndex),
    /// usually just one candidate, but federal rules allow multiple elimination
    Elimination(Vec<CandidateIndex>),
}

impl ReasonForCount {
    /// True iff this count excludes candidates.
    pub fn is_elimination(&self) -> (res: bool)
        ensures
            res == (self is Elimination),
    {
        match self {
            ReasonForCount::Elimination(_) => true,
            _ => false,
        }
    }

    /// True iff this count distributes a surplus.
    pub fn is_surplus(&self) -> (res: bool)
        ensures
            res == (self is ExcessDistribution),
    {
        match self {
            ReasonForCount::ExcessDistribution(_) => true,
            _ => false,
        }
    }
}

/// Why a candidate was elected.
#[derive(Copy, Clone, Eq, PartialEq, Debug, Structural)]
pub enum ElectionReason {
    ReachedQuota,
    HighestOfLastTwoStanding,
    AllRemainingMustBeElected,
    OverwhelmingTally,
}

/// Who was elected, and why.
#[derive(Copy, Clone, Eq, PartialEq, Debug, Structural)]
pub struct CandidateElected {
    pub who: CandidateIndex,
    pub why: ElectionReason,
}

/// Which part of a distribution is done in a count.
#[derive(Clone, Debug)]
pub struct PortionOfReasonBeingDoneThisCount {
    pub transfer_value: Option<TransferValue>,
    pub when_tv_created: Option<CountIndex>,
    pub papers_came_from_counts: Vec<CountIndex>,
}

/// How a transfer value was made.
#[derive(Clone, Debug)]
pub struct TransferValueCreation<Tally> {
    pub surplus: Tally,
    pub votes: Tally,
    pub excluded_exhausted_tally: Option<Fraction>,
    pub original_transfer_value: Option<TransferValue>,
    pub multiplied_transfer_value: Option<TransferValue>,
    /// The number of ballots considered for redistribution. This may be all or a last parcel.
    pub ballots_considered: BallotPaperCount,
    /// The number of the considered ballots that are continuing
    pub continuing_ballots: BallotPaperCount,
    pub transfer_value: TransferValue,
}

/// The candidates affected by a decision the electoral commission had to make.
#[derive(Clone, Debug)]
pub struct DecisionMadeByEC {
    pub affected: Vec<CandidateIndex>,
}

/// One count of a distribution of preferences.
#[derive(Clone, Debug)]
pub struct SingleCount<Tally> {
    /// The action that is being done in said count
    pub reason: ReasonForCount,
    /// If only a sub portion of that reason is done in that count, why will be in here.
    pub portion: PortionOfReasonBeingDoneThisCount,
    /// true if the action in reason is finished in this count.
    pub reason_completed: bool,
    /// Who, if anyone, was elected in this count.
    pub elected: Vec<CandidateElected>,
    /// Who stopped being a continuing candidate for the first time at the start of this count.
    pub not_continuing: Vec<CandidateIndex>,
    /// If a transfer value was created, how
    pub created_transfer_value: Option<TransferValueCreation<Tally>>,
    /// the decisions made by the EC (possibly randomly)
    pub decisions: Vec<TieResolutionExplicitDecision>,
    /// if there are any set aside for quota votes on this distribution
    pub set_aside_for_quota: Option<PerCandidate<BallotPaperCount>>,
    /// status at end of count.
    pub status: EndCountStatus<Tally>,
    /// A special name for the count, if not 1,2,3,...
    pub count_name: Option<String>,
}

/// How the quota was computed.
#[derive(Clone, Debug)]
pub struct QuotaInfo<Tally> {
    pub papers: BallotPaperCount,
    pub vacancies: NumberOfCandidates,
    pub quota: Tally,
}

/// A whole distribution of preferences.
#[derive(Clone, Debug)]
pub struct Transcript<Tally> {
    /// The rules that were used to compute this transcript.
    pub rules: String,
    pub quota: Option<QuotaInfo<Tally>>,
    pub counts: Vec<SingleCount<Tally>>,
    pub elected: Vec<CandidateIndex>,
}

/// The value used when a stored quota is missing.
pub fn produce_none<T>() -> (res: Option<T>)
    ensures
        res is None,
{
    None
}

impl<Tally> Transcript<Tally> {
    /// The count with the given index.
    pub fn count(&self, index: CountIndex) -> (res: &SingleCount<Tally>)
        requires
            index.0 < self.counts@.len(),
        ensures
            *res == self.counts@[index.0 as int],
    {
        &self.counts[index.0]
    }
}

} // verus!
