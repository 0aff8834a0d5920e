//! Comparing two transcripts, or two lists of candidates.

use vstd::prelude::*;
use crate::ballot_metadata::CandidateIndex;
use crate::distribution_of_preferences_transcript::CountIndex;
use crate::util::{keep_if_in, filter_by_membership, sort_by_index, sorted_by_index, contains_candidate};
use crate::tally::TallyValue;
use crate::distribution_of_preferences_transcript::{PerCandidate, EndCountStatus, SingleCount, Transcript, CandidateElected};
use crate::simple_list_of_votes::{ListOfVotes, VotesWithGivenTransferValue, Vote};
use crate::transfer_value::same_value;
use crate::ballot_metadata::ElectionMetadata;

verus! {

/// The result of comparing two transcripts, in order of most
/// serious to least serious. The most serious is reported.
#[derive(Clone, Debug, Eq, PartialEq)]
pub enum DifferenceBetweenTranscripts {
    DifferentCandidatesElected(DifferentCandidateLists),
    CandidatesOrderedDifferentWay(DifferentCandidateLists),
    DifferentValues(CountIndex),
    DifferentNumberOfCounts,
    Same,
}

/// Two lists of candidates that differ.
#[derive(Clone, Debug, Eq, PartialEq)]
pub struct DifferentCandidateLists {
    pub list1: Vec<CandidateIndex>,
    pub list2: Vec<CandidateIndex>,
}

/// The difference between two lists of candidate indices. Order is not considered (and indeed
/// is suppressed to make equality comparison easier).
#[derive(Clone, Debug, Eq, PartialEq)]
pub struct DeltasInCandidateLists {
    pub common: Vec<CandidateIndex>,
    pub list1only: Vec<CandidateIndex>,
    pub list2only: Vec<CandidateIndex>,
}

impl DeltasInCandidateLists {
    /// Split two lists into the candidates in both, in just the first, and in just the second,
    /// each sorted by candidate number.
    pub fn from_lists(cl: DifferentCandidateLists) -> (res: Self)
        ensures
            res.common@.to_multiset() == keep_if_in(cl.list1@, cl.list2@, true).to_multiset(),
            sorted_by_index(res.common@),
            res.list1only@.to_multiset() == keep_if_in(cl.list1@, cl.list2@, false).to_multiset(),
            sorted_by_index(res.list1only@),
            res.list2only@.to_multiset() == keep_if_in(cl.list2@, cl.list1@, false).to_multiset(),
            sorted_by_index(res.list2only@),
            res.list1only@.len() == keep_if_in(cl.list1@, cl.list2@, false).len(),
            res.list2only@.len() == keep_if_in(cl.list2@, cl.list1@, false).len(),
    {
        let mut common = filter_by_membership(cl.list1.as_slice(), cl.list2.as_slice(), true);
        sort_by_index(&mut common);
        let mut list1only = filter_by_membership(cl.list1.as_slice(), cl.list2.as_slice(), false);
        sort_by_index(&mut list1only);
        let mut list2only = filter_by_membership(cl.list2.as_slice(), cl.list1.as_slice(), false);
        sort_by_index(&mut list2only);
        proof {
            broadcast use vstd::seq_lib::group_to_multiset_ensures;
        }
        DeltasInCandidateLists { common, list1only, list2only }
    }

    /// See if the two lists held the same candidates, that is, neither has a candidate the other lacks.
    pub fn is_empty(&self) -> (res: bool)
        ensures
            res == (self.list1only@.len() == 0 && self.list2only@.len() == 0),
    {
        self.list1only.len() == 0 && self.list2only.len() == 0
    }
}

/// Nothing is left of `a` when the members of `b` are taken out exactly when every member of `a`
/// is in `b`.
proof fn lemma_nothing_left(a: Seq<CandidateIndex>, b: Seq<CandidateIndex>)
    ensures
        (keep_if_in(a, b, false).len() == 0) <==> (forall|i: int| 0 <= i < a.len() ==> b.contains(#[trigger] a[i])),
    decreases a.len(),
{
    if a.len() > 0 {
        lemma_nothing_left(a.drop_last(), b);
        if forall|i: int| 0 <= i < a.len() ==> b.contains(#[trigger] a[i]) {
            assert forall|i: int| 0 <= i < a.drop_last().len() implies b.contains(#[trigger] a.drop_last()[i]) by {
                assert(a.drop_last()[i] == a[i]);
            }
            assert(b.contains(a[a.len() - 1]));
        } else {
            let i = choose|i: int| 0 <= i < a.len() && !b.contains(#[trigger] a[i]);
            if i < a.len() - 1 {
                assert(a.drop_last()[i] == a[i]);
            }
        }
    }
}

/// The two lists of candidates differ (neither has a candidate the other lacks) exactly when
/// they hold the same set of candidates, whatever their order: so `is_empty` of what
/// `from_lists` makes of them tells whether the sets are the same.
pub proof fn lemma_no_deltas_same_set(list1: Seq<CandidateIndex>, list2: Seq<CandidateIndex>)
    ensures
        (keep_if_in(list1, list2, false).len() == 0 && keep_if_in(list2, list1, false).len() == 0) <==> list1.to_set()
            == list2.to_set(),
{
    lemma_nothing_left(list1, list2);
    lemma_nothing_left(list2, list1);
    if keep_if_in(list1, list2, false).len() == 0 && keep_if_in(list2, list1, false).len() == 0 {
        assert forall|x: CandidateIndex| list1.to_set().contains(x) <==> list2.to_set().contains(x) by {
            if list1.contains(x) {
                let i = choose|i: int| 0 <= i < list1.len() && list1[i] == x;
                assert(list2.contains(list1[i]));
            }
            if list2.contains(x) {
                let i = choose|i: int| 0 <= i < list2.len() && list2[i] == x;
                assert(list1.contains(list2[i]));
            }
        }
        assert(list1.to_set() =~= list2.to_set());
    }
    if list1.to_set() == list2.to_set() {
        assert forall|i: int| 0 <= i < list1.len() implies list2.contains(#[trigger] list1[i]) by {
            assert(list1.to_set().contains(list1[i]));
            assert(list2.to_set().contains(list1[i]));
        }
        assert forall|i: int| 0 <= i < list2.len() implies list1.contains(#[trigger] list2[i]) by {
            assert(list2.to_set().contains(list2[i]));
            assert(list1.to_set().contains(list2[i]));
        }
    }
}

/// The same numbers, candidate by candidate.
pub open spec fn values_same<X: TallyValue>(a: Seq<X>, b: Seq<X>) -> bool {
    a.len() == b.len() && forall|i: int| 0 <= i < a.len() ==> (#[trigger] a[i]).value() == b[i].value()
}

/// Two optional numbers are both absent, or the same.
pub open spec fn option_value_same<X: TallyValue>(a: Option<X>, b: Option<X>) -> bool {
    match (a, b) {
        (None, None) => true,
        (Some(x), Some(y)) => x.value() == y.value(),
        _ => false,
    }
}

/// The same numbers for every candidate and elsewhere.
pub open spec fn per_candidate_same<X: TallyValue>(a: PerCandidate<X>, b: PerCandidate<X>) -> bool {
    &&& values_same(a.candidate@, b.candidate@)
    &&& a.exhausted.value() == b.exhausted.value()
    &&& a.rounding.negative == b.rounding.negative
    &&& a.rounding.value.value() == b.rounding.value.value()
    &&& option_value_same(a.set_aside, b.set_aside)
}

/// Two optional lists of numbers are both absent, or the same.
pub open spec fn option_per_candidate_same<X: TallyValue>(a: Option<PerCandidate<X>>, b: Option<PerCandidate<X>>) -> bool {
    match (a, b) {
        (None, None) => true,
        (Some(x), Some(y)) => per_candidate_same(x, y),
        _ => false,
    }
}

/// The same votes.
pub open spec fn vote_same(a: Vote, b: Vote) -> bool {
    a.n == b.n && a.candidates@ == b.candidates@
}

/// The same transfer value and the same votes.
pub open spec fn tv_votes_same(a: VotesWithGivenTransferValue, b: VotesWithGivenTransferValue) -> bool {
    same_value(a.tv, b.tv) && a.votes@.len() == b.votes@.len() && forall|i: int|
        0 <= i < a.votes@.len() ==> vote_same(#[trigger] a.votes@[i], b.votes@[i])
}

/// The same lists of votes.
pub open spec fn list_same(a: ListOfVotes, b: ListOfVotes) -> bool {
    a.tvs@.len() == b.tvs@.len() && forall|i: int| 0 <= i < a.tvs@.len() ==> tv_votes_same(#[trigger] a.tvs@[i], b.tvs@[i])
}

/// The same lists of votes for every candidate and elsewhere.
pub open spec fn per_candidate_lists_same(a: PerCandidate<ListOfVotes>, b: PerCandidate<ListOfVotes>) -> bool {
    &&& a.candidate@.len() == b.candidate@.len()
    &&& forall|i: int| 0 <= i < a.candidate@.len() ==> list_same(#[trigger] a.candidate@[i], b.candidate@[i])
    &&& list_same(a.exhausted, b.exhausted)
    &&& a.rounding.negative == b.rounding.negative
    &&& list_same(a.rounding.value, b.rounding.value)
    &&& match (a.set_aside, b.set_aside) {
        (None, None) => true,
        (Some(x), Some(y)) => list_same(x, y),
        _ => false,
    }
}

/// The same state at the end of a count.
pub open spec fn status_same<Tally: TallyValue>(a: EndCountStatus<Tally>, b: EndCountStatus<Tally>) -> bool {
    &&& per_candidate_same(a.tallies, b.tallies)
    &&& per_candidate_same(a.papers, b.papers)
    &&& option_per_candidate_same(a.atl_papers, b.atl_papers)
    &&& match (a.list_of_votes, b.list_of_votes) {
        (None, None) => true,
        (Some(x), Some(y)) => per_candidate_lists_same(x, y),
        _ => false,
    }
}

/// Two counts agree on who was elected, who stopped continuing, and the state at the end.
pub open spec fn counts_agree<Tally: TallyValue>(a: SingleCount<Tally>, b: SingleCount<Tally>) -> bool {
    a.elected@ == b.elected@ && a.not_continuing@ == b.not_continuing@ && status_same(a.status, b.status)
}

/// The first of the first `n` counts at which two transcripts disagree, if any.
pub open spec fn first_disagreement<Tally: TallyValue>(a: Seq<SingleCount<Tally>>, b: Seq<SingleCount<Tally>>, n: int) -> Option<int>
    decreases n,
{
    if n <= 0 {
        None
    } else {
        match first_disagreement(a, b, n - 1) {
            Some(k) => Some(k),
            None => if counts_agree(a[n - 1], b[n - 1]) {
                None
            } else {
                Some(n - 1)
            },
        }
    }
}

/// True iff the numbers are the same, candidate by candidate.
fn values_same_exec<X: TallyValue>(a: &Vec<X>, b: &Vec<X>) -> (res: bool)
    ensures
        res == values_same(a@, b@),
{
    if a.len() != b.len() {
        return false;
    }
    for i in 0..a.len()
        invariant
            a@.len() == b@.len(),
            forall|j: int| 0 <= j < i ==> (#[trigger] a@[j]).value() == b@[j].value(),
    {
        if !a[i].is_same(&b[i]) {
            return false;
        }
    }
    true
}

fn option_value_same_exec<X: TallyValue>(a: &Option<X>, b: &Option<X>) -> (res: bool)
    ensures
        res == option_value_same(*a, *b),
{
    match (a, b) {
        (None, None) => true,
        (Some(x), Some(y)) => x.is_same(y),
        _ => false,
    }
}

/// True iff the same numbers for every candidate and elsewhere.
pub fn per_candidate_same_exec<X: TallyValue>(a: &PerCandidate<X>, b: &PerCandidate<X>) -> (res: bool)
    ensures
        res == per_candidate_same(*a, *b),
{
    values_same_exec(&a.candidate, &b.candidate) && a.exhausted.is_same(&b.exhausted) && a.rounding.negative
        == b.rounding.negative && a.rounding.value.is_same(&b.rounding.value) && option_value_same_exec(
        &a.set_aside,
        &b.set_aside,
    )
}

fn option_per_candidate_same_exec<X: TallyValue>(a: &Option<PerCandidate<X>>, b: &Option<PerCandidate<X>>) -> (res: bool)
    ensures
        res == option_per_candidate_same(*a, *b),
{
    match (a, b) {
        (None, None) => true,
        (Some(x), Some(y)) => per_candidate_same_exec(x, y),
        _ => false,
    }
}

fn candidates_same_exec(a: &Vec<CandidateIndex>, b: &Vec<CandidateIndex>) -> (res: bool)
    ensures
        res == (a@ == b@),
{
    if a.len() != b.len() {
        return false;
    }
    for i in 0..a.len()
        invariant
            a@.len() == b@.len(),
            forall|j: int| 0 <= j < i ==> a@[j] == b@[j],
    {
        if a[i] != b[i] {
            return false;
        }
    }
    assert(a@ =~= b@);
    true
}

fn elected_same_exec(a: &Vec<CandidateElected>, b: &Vec<CandidateElected>) -> (res: bool)
    ensures
        res == (a@ == b@),
{
    if a.len() != b.len() {
        return false;
    }
    for i in 0..a.len()
        invariant
            a@.len() == b@.len(),
            forall|j: int| 0 <= j < i ==> a@[j] == b@[j],
    {
        if a[i] != b[i] {
            return false;
        }
    }
    assert(a@ =~= b@);
    true
}

fn tv_votes_same_exec(a: &VotesWithGivenTransferValue, b: &VotesWithGivenTransferValue) -> (res: bool)
    ensures
        res == tv_votes_same(*a, *b),
{
    if !a.tv.same_as(&b.tv) || a.votes.len() != b.votes.len() {
        return false;
    }
    for i in 0..a.votes.len()
        invariant
            a.votes@.len() == b.votes@.len(),
            forall|j: int| 0 <= j < i ==> vote_same(#[trigger] a.votes@[j], b.votes@[j]),
    {
        if a.votes[i].n != b.votes[i].n || !candidates_same_exec(&a.votes[i].candidates, &b.votes[i].candidates) {
            return false;
        }
    }
    true
}

fn list_same_exec(a: &ListOfVotes, b: &ListOfVotes) -> (res: bool)
    ensures
        res == list_same(*a, *b),
{
    if a.tvs.len() != b.tvs.len() {
        return false;
    }
    for i in 0..a.tvs.len()
        invariant
            a.tvs@.len() == b.tvs@.len(),
            forall|j: int| 0 <= j < i ==> tv_votes_same(#[trigger] a.tvs@[j], b.tvs@[j]),
    {
        if !tv_votes_same_exec(&a.tvs[i], &b.tvs[i]) {
            return false;
        }
    }
    true
}

fn per_candidate_lists_same_exec(a: &PerCandidate<ListOfVotes>, b: &PerCandidate<ListOfVotes>) -> (res: bool)
    ensures
        res == per_candidate_lists_same(*a, *b),
{
    if a.candidate.len() != b.candidate.len() {
        return false;
    }
    for i in 0..a.candidate.len()
        invariant
            a.candidate@.len() == b.candidate@.len(),
            forall|j: int| 0 <= j < i ==> list_same(#[trigger] a.candidate@[j], b.candidate@[j]),
    {
        if !list_same_exec(&a.candidate[i], &b.candidate[i]) {
            return false;
        }
    }
    if !list_same_exec(&a.exhausted, &b.exhausted) || a.rounding.negative != b.rounding.negative || !list_same_exec(
        &a.rounding.value,
        &b.rounding.value,
    ) {
        return false;
    }
    match (&a.set_aside, &b.set_aside) {
        (None, None) => true,
        (Some(x), Some(y)) => list_same_exec(x, y),
        _ => false,
    }
}

fn status_same_exec<Tally: TallyValue>(a: &EndCountStatus<Tally>, b: &EndCountStatus<Tally>) -> (res: bool)
    ensures
        res == status_same(*a, *b),
{
    per_candidate_same_exec(&a.tallies, &b.tallies) && per_candidate_same_exec(&a.papers, &b.papers)
        && option_per_candidate_same_exec(&a.atl_papers, &b.atl_papers) && match (&a.list_of_votes, &b.list_of_votes) {
        (None, None) => true,
        (Some(x), Some(y)) => per_candidate_lists_same_exec(x, y),
        _ => false,
    }
}

/// Every candidate of the first list is in the second.
pub open spec fn all_in(a: Seq<CandidateIndex>, b: Seq<CandidateIndex>) -> bool {
    forall|i: int| 0 <= i < a.len() ==> b.contains(#[trigger] a[i])
}

/// What comparing two transcripts reports: if different candidates are elected, whether the
/// same ones are elected in another order; otherwise the first count at which they differ, or
/// whether they have different numbers of counts, or that they are the same.
pub open spec fn transcripts_compared<Tally: TallyValue>(
    transcript1: Transcript<Tally>,
    transcript2: Transcript<Tally>,
    res: DifferenceBetweenTranscripts,
) -> bool {
    &&& transcript1.elected@ != transcript2.elected@ ==> match res {
            DifferenceBetweenTranscripts::CandidatesOrderedDifferentWay(d) => all_in(transcript1.elected@, transcript2.elected@)
                && d.list1@ == transcript1.elected@ && d.list2@ == transcript2.elected@,
            DifferenceBetweenTranscripts::DifferentCandidatesElected(d) => !all_in(transcript1.elected@, transcript2.elected@)
                && d.list1@ == transcript1.elected@ && d.list2@ == transcript2.elected@,
            _ => false,
        }
    &&& transcript1.elected@ == transcript2.elected@ ==> {
            let n = if transcript1.counts@.len() < transcript2.counts@.len() {
                transcript1.counts@.len()
            } else {
                transcript2.counts@.len()
            };
            match first_disagreement(transcript1.counts@, transcript2.counts@, n as int) {
                Some(k) => res == DifferenceBetweenTranscripts::DifferentValues(CountIndex(k as usize)),
                None => if transcript1.counts@.len() == transcript2.counts@.len() {
                    res == DifferenceBetweenTranscripts::Same
                } else {
                    res == DifferenceBetweenTranscripts::DifferentNumberOfCounts
                },
            }
        }
}

/// Compare two transcripts, reporting the most serious difference.
#[verifier::loop_isolation(false)]
pub fn compare_transcripts<Tally: TallyValue>(transcript1: &Transcript<Tally>, transcript2: &Transcript<Tally>) -> (res: DifferenceBetweenTranscripts)
    ensures
        transcripts_compared(*transcript1, *transcript2, res),
{
    if !candidates_same_exec(&transcript1.elected, &transcript2.elected) {
        let mut all_there = true;
        for i in 0..transcript1.elected.len()
            invariant
                all_there == all_in(transcript1.elected@.take(i as int), transcript2.elected@),
        {
            assert(transcript1.elected@.take(i + 1).drop_last() =~= transcript1.elected@.take(i as int));
            if !contains_candidate(transcript2.elected.as_slice(), transcript1.elected[i]) {
                all_there = false;
            }
            assert(all_in(transcript1.elected@.take(i + 1), transcript2.elected@) == (all_in(
                transcript1.elected@.take(i as int),
                transcript2.elected@,
            ) && transcript2.elected@.contains(transcript1.elected@[i as int]))) by {
                let t = transcript1.elected@.take(i + 1);
                if all_in(t, transcript2.elected@) {
                    assert(transcript2.elected@.contains(t[i as int]));
                    assert forall|j: int| 0 <= j < i implies transcript2.elected@.contains(
                        #[trigger] transcript1.elected@.take(i as int)[j],
                    ) by {
                        assert(t[j] == transcript1.elected@.take(i as int)[j]);
                    }
                }
            }
        }
        assert(transcript1.elected@.take(transcript1.elected@.len() as int) =~= transcript1.elected@);
        let dcl = DifferentCandidateLists { list1: copy_candidates(&transcript1.elected), list2: copy_candidates(&transcript2.elected) };
        if all_there {
            DifferenceBetweenTranscripts::CandidatesOrderedDifferentWay(dcl)
        } else {
            DifferenceBetweenTranscripts::DifferentCandidatesElected(dcl)
        }
    } else {
        let n = if transcript1.counts.len() < transcript2.counts.len() {
            transcript1.counts.len()
        } else {
            transcript2.counts.len()
        };
        for count_index in 0..n
            invariant
                n <= transcript1.counts@.len(),
                n <= transcript2.counts@.len(),
                first_disagreement(transcript1.counts@, transcript2.counts@, count_index as int) is None,
        {
            let count1 = &transcript1.counts[count_index];
            let count2 = &transcript2.counts[count_index];
            if !elected_same_exec(&count1.elected, &count2.elected) || !candidates_same_exec(
                &count1.not_continuing,
                &count2.not_continuing,
            ) || !status_same_exec(&count1.status, &count2.status) {
                proof {
                    lemma_first_disagreement_stays(transcript1.counts@, transcript2.counts@, count_index + 1, n as int);
                }
                return DifferenceBetweenTranscripts::DifferentValues(CountIndex(count_index));
            }
        }
        if transcript1.counts.len() == transcript2.counts.len() {
            DifferenceBetweenTranscripts::Same
        } else {
            DifferenceBetweenTranscripts::DifferentNumberOfCounts
        }
    }
}

/// Once a disagreement is found, looking at more counts finds the same one.
proof fn lemma_first_disagreement_stays<Tally: TallyValue>(
    a: Seq<SingleCount<Tally>>,
    b: Seq<SingleCount<Tally>>,
    m: int,
    n: int,
)
    requires
        0 <= m <= n,
    ensures
        first_disagreement(a, b, m) is Some ==> first_disagreement(a, b, n) == first_disagreement(a, b, m),
    decreases n - m,
{
    if m < n {
        lemma_first_disagreement_stays(a, b, m, n - 1);
    }
}

/// A copy of a list of candidates.
fn copy_candidates(v: &Vec<CandidateIndex>) -> (res: Vec<CandidateIndex>)
    ensures
        res@ == v@,
{
    let mut res: Vec<CandidateIndex> = Vec::new();
    for i in 0..v.len()
        invariant
            res@ == v@.take(i as int),
    {
        res.push(v[i]);
        assert(v@.take(i + 1) =~= v@.take(i as int).push(v@[i as int]));
    }
    assert(v@.take(v@.len() as int) =~= v@);
    res
}

/// The names of the candidates, written as Rust writes a list of strings for debugging.
///
/// Calls the standard library's `Debug` formatting of a `Vec<&String>` through `format!`, which
/// quotes and escapes each name; the result depends only on the names, so it is named rather than
/// spelt out.
#[verifier::external_body]
fn debug_list(names: &Vec<String>) -> (res: String)
    ensures
        res@ == debug_list_text(crate::text::texts_of(names@)),
{
    format!("{:?}", names.iter().collect::<Vec<_>>())
}

/// How `format!("{:?}", ..)` writes a list of strings.
pub uninterp spec fn debug_list_text(names: Seq<Seq<char>>) -> Seq<char>;

/// The names of the listed candidates, in brackets, as a debugging list.
pub fn pretty_print_candidate_list(candidates: &[CandidateIndex], metadata: &ElectionMetadata) -> (res: String)
    requires
        forall|i: int| 0 <= i < candidates@.len() ==> (#[trigger] candidates@[i]).0 < metadata.candidates@.len(),
    ensures
        res@ == seq!['['] + debug_list_text(candidates@.map_values(|c: CandidateIndex| metadata.candidates@[c.0 as int].name@))
            + seq![']'],
{
    let mut names: Vec<String> = Vec::new();
    for i in 0..candidates.len()
        invariant
            forall|j: int| 0 <= j < candidates@.len() ==> (#[trigger] candidates@[j]).0 < metadata.candidates@.len(),
            names@.len() == i,
            forall|j: int| 0 <= j < i ==> (#[trigger] names@[j])@ == metadata.candidates@[candidates@[j].0 as int].name@,
    {
        names.push(metadata.candidates[candidates[i].0].name.clone());
    }
    assert(crate::text::texts_of(names@) =~= candidates@.map_values(|c: CandidateIndex| metadata.candidates@[c.0 as int].name@));
    let inner = debug_list(&names);
    let mut res = String::new();
    crate::text::push_char(&mut res, '[');
    crate::text::append_str(&mut res, inner.as_str());
    crate::text::push_char(&mut res, ']');
    res
}

impl DeltasInCandidateLists {
    /// The common candidates and those in only one list, by name.
    pub fn pretty_print(&self, metadata: &ElectionMetadata) -> (res: String)
        requires
            forall|i: int| 0 <= i < self.common@.len() ==> (#[trigger] self.common@[i]).0 < metadata.candidates@.len(),
            forall|i: int| 0 <= i < self.list1only@.len() ==> (#[trigger] self.list1only@[i]).0 < metadata.candidates@.len(),
            forall|i: int| 0 <= i < self.list2only@.len() ==> (#[trigger] self.list2only@[i]).0 < metadata.candidates@.len(),
        ensures
            ({
                let names = |l: Seq<CandidateIndex>|
                    seq!['['] + debug_list_text(l.map_values(|c: CandidateIndex| metadata.candidates@[c.0 as int].name@))
                        + seq![']'];
                res@ == "Common "@ + names(self.common@) + " Different "@ + names(self.list1only@) + " vs "@ + names(
                    self.list2only@,
                )
            }),
    {
        let common = pretty_print_candidate_list(self.common.as_slice(), metadata);
        let l1 = pretty_print_candidate_list(self.list1only.as_slice(), metadata);
        let l2 = pretty_print_candidate_list(self.list2only.as_slice(), metadata);
        let mut res = String::new();
        crate::text::append_str(&mut res, "Common ");
        crate::text::append_str(&mut res, common.as_str());
        crate::text::append_str(&mut res, " Different ");
        crate::text::append_str(&mut res, l1.as_str());
        crate::text::append_str(&mut res, " vs ");
        crate::text::append_str(&mut res, l2.as_str());
        res
    }
}

} // verus!

verus! {

/// A transcript agrees with itself at every count: comparing a transcript with itself reports
/// `Same`.
pub proof fn lemma_transcript_agrees_with_itself<Tally: TallyValue>(a: Seq<SingleCount<Tally>>, n: int)
    ensures
        first_disagreement(a, a, n) is None,
    decreases n,
{
    if n > 0 {
        lemma_transcript_agrees_with_itself(a, n - 1);
        assert(counts_agree(a[n - 1], a[n - 1]));
    }
}

/// Two transcripts first disagree at the same count whichever is taken first.
pub proof fn lemma_first_disagreement_symmetric<Tally: TallyValue>(
    a: Seq<SingleCount<Tally>>,
    b: Seq<SingleCount<Tally>>,
    n: int,
)
    ensures
        first_disagreement(a, b, n) == first_disagreement(b, a, n),
    decreases n,
{
    if n > 0 {
        lemma_first_disagreement_symmetric(a, b, n - 1);
        assert(counts_agree(a[n - 1], b[n - 1]) == counts_agree(b[n - 1], a[n - 1]));
    }
}

} // verus!
