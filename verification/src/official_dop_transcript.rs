//! What an electoral commission published as its distribution of preferences, and checking a
//! computed transcript against it, count by count: who was elected and who stopped continuing,
//! and the numbers of ballot papers. The vote totals of an official transcript are published
//! as decimal fractions; this library does not compare them.

use vstd::prelude::*;
use crate::ballot_metadata::CandidateIndex;
use crate::ballot_pile::BallotPaperCount;
use crate::distribution_of_preferences_transcript::{CandidateElected, CountIndex, PerCandidate, SingleCount, Transcript};
use crate::tie_resolution::{TieResolutionExplicitDecision, TieResolutionExplicitDecisionInCount, without};
use crate::util::{contains_candidate, sort_by_index, sorted_by_index};
use crate::text::{chars_of, parse_unsigned, parse_unsigned_spec, split_on, split_text, str_equals, texts_of, trim, trimmed_range};

verus! {

/// What the official distribution of preferences says of one count, in whole numbers.
#[derive(Clone, Debug)]
pub struct OfficialDOPForOneCount {
    pub elected: Vec<CandidateIndex>,
    pub excluded: Vec<CandidateIndex>,
    /// The number of papers each candidate holds; usize::MAX means unknown.
    pub paper_total: Option<PerCandidate<usize>>,
    /// The change in the number of papers each candidate holds; isize::MAX means unknown.
    pub paper_delta: Option<PerCandidate<isize>>,
    pub count_name: Option<String>,
    /// If present, which counts the papers came from, in ascending order.
    pub papers_came_from_counts: Option<Vec<CountIndex>>,
}

/// The whole-number parts of an official distribution of preferences.
#[derive(Clone, Debug)]
pub struct OfficialDistributionOfPreferencesTranscript {
    pub counts: Vec<OfficialDOPForOneCount>,
    /// true if the record does not contain negative papers amounts.
    pub missing_negatives_in_papers_delta: bool,
    /// true if members of "elected" are in order of election.
    pub elected_candidates_are_in_order: bool,
    /// true if exhausted votes all go to rounding.
    pub all_exhausted_go_to_rounding: bool,
}

/// How a count of the official transcript differs from the computed one.
#[derive(Clone, Debug)]
pub enum DifferenceBetweenOfficialDoPAndComputedOnParticularCount {
    CountName(Option<String>, Option<String>),
    ElectedCandidatesOrdered(Vec<CandidateIndex>, Vec<CandidateIndex>),
    ElectedCandidatesUnordered(Vec<CandidateIndex>, Vec<CandidateIndex>),
    CandidateNotContinuingInOfficalCount(CandidateIndex),
    CandidateNotContinuingInOfficialCountWithPointlessDecision(CandidateIndex, Vec<CandidateIndex>),
    FromCounts(Vec<CountIndex>, Vec<CountIndex>),
    PaperTotalExhausted(BallotPaperCount, BallotPaperCount),
    PaperTotalRounding(BallotPaperCount, BallotPaperCount),
    PaperTotalCandidate(BallotPaperCount, BallotPaperCount, CandidateIndex),
    PaperDeltaExhausted(isize, usize),
    PaperDeltaRounding(isize, usize),
    PaperDeltaCandidate(isize, isize, CandidateIndex),
}

/// The text of an optional name.
pub open spec fn name_view(n: Option<String>) -> Option<Seq<char>> {
    match n {
        Some(s) => Some(s@),
        None => None,
    }
}

/// The candidates elected, in order.
pub open spec fn whos(es: Seq<CandidateElected>) -> Seq<CandidateIndex> {
    es.map_values(|e: CandidateElected| e.who)
}

/// The groups, one after the other.
pub open spec fn flatten(gs: Seq<Seq<CandidateIndex>>) -> Seq<CandidateIndex>
    decreases gs.len(),
{
    if gs.len() == 0 {
        Seq::empty()
    } else {
        flatten(gs.drop_last()) + gs.last()
    }
}

/// The candidates a decision was about, least favoured group first.
pub open spec fn affected_by(d: TieResolutionExplicitDecision) -> Seq<CandidateIndex> {
    flatten(d.increasing_favour@.map_values(|g: Vec<CandidateIndex>| g@))
}

/// The first index below `n` at which `bad` holds, if any.
pub open spec fn first_where(n: int, bad: spec_fn(int) -> bool) -> Option<int>
    decreases n,
{
    if n <= 0 {
        None
    } else {
        match first_where(n - 1, bad) {
            Some(i) => Some(i),
            None => if bad(n - 1) {
                Some(n - 1)
            } else {
                None
            },
        }
    }
}

/// Once found, the first index where `bad` holds stays the first as more indices are looked at.
pub proof fn lemma_first_where_stays(m: int, n: int, bad: spec_fn(int) -> bool)
    requires
        0 <= m <= n,
    ensures
        first_where(m, bad) is Some ==> first_where(n, bad) == first_where(m, bad),
        first_where(n, bad) is None ==> first_where(m, bad) is None,
    decreases n - m,
{
    if m < n {
        lemma_first_where_stays(m, n - 1, bad);
    }
}

/// The first index where `bad` holds is one where it holds, and it holds at no index before it.
pub proof fn lemma_first_where_is_first(n: int, bad: spec_fn(int) -> bool)
    ensures
        first_where(n, bad) matches Some(i) ==> 0 <= i < n && bad(i) && forall|j: int| 0 <= j < i ==> !#[trigger] bad(j),
        first_where(n, bad) is None ==> forall|j: int| 0 <= j < n ==> !#[trigger] bad(j),
    decreases n,
{
    if n > 0 {
        lemma_first_where_is_first(n - 1, bad);
    }
}

/// The official excluded candidate at index `i` did not stop continuing in the computed count.
pub open spec fn missing_exclusion(excluded: Seq<CandidateIndex>, not_continuing: Seq<CandidateIndex>) -> spec_fn(int) -> bool {
    |i: int| !not_continuing.contains(excluded[i])
}

/// The decision at index `j` was about `who`.
pub open spec fn decision_about(decisions: Seq<TieResolutionExplicitDecision>, who: CandidateIndex) -> spec_fn(int) -> bool {
    |j: int| affected_by(decisions[j]).contains(who)
}

/// The names, and who was elected in the count, agree; in order of election where the official
/// transcript gives that order, else as sets.
pub open spec fn names_and_elected_agree<T>(official: OfficialDOPForOneCount, in_order: bool, my: SingleCount<T>) -> bool {
    &&& name_view(my.count_name) == name_view(official.count_name)
    &&& if in_order {
        official.elected@ == whos(my.elected@)
    } else {
        official.elected@.to_multiset() == whos(my.elected@).to_multiset()
    }
}

/// Two sequences of candidates sorted by candidate number with the same elements are equal.
proof fn lemma_sorted_by_index_unique(a: Seq<CandidateIndex>, b: Seq<CandidateIndex>)
    requires
        sorted_by_index(a),
        sorted_by_index(b),
        a.to_multiset() == b.to_multiset(),
    ensures
        a == b,
{
    let leq = |x: CandidateIndex, y: CandidateIndex| x.0 <= y.0;
    assert(vstd::relations::total_ordering(leq)) by {
        assert forall|x: CandidateIndex, y: CandidateIndex| #[trigger] leq(x, y) && #[trigger] leq(y, x) implies x == y by {
            assert(x.0 == y.0);
        }
    }
    assert(vstd::relations::sorted_by(a, leq));
    assert(vstd::relations::sorted_by(b, leq));
    vstd::seq_lib::lemma_sorted_unique(a, b, leq);
}

/// True iff two optional names are the same.
fn same_name(a: &Option<String>, b: &Option<String>) -> (res: bool)
    ensures
        res == (name_view(*a) == name_view(*b)),
{
    match (a, b) {
        (None, None) => true,
        (Some(x), Some(y)) => str_equals(x.as_str(), y.as_str()),
        _ => false,
    }
}

/// A copy of an optional name.
fn copy_name(a: &Option<String>) -> (res: Option<String>)
    ensures
        name_view(res) == name_view(*a),
{
    match a {
        None => None,
        Some(x) => Some(x.clone()),
    }
}

/// A copy of a list of candidates.
fn copy_list(v: &Vec<CandidateIndex>) -> (res: Vec<CandidateIndex>)
    ensures
        res@ == v@,
{
    let mut res: Vec<CandidateIndex> = Vec::new();
    for i in 0..v.len()
        invariant
            res@ == v@.take(i as int),
    {
        res.push(v[i]);
        assert(v@.take(i + 1) =~= v@.take(i as int).push(v@[i as int]));
    }
    assert(v@.take(v@.len() as int) =~= v@);
    res
}

/// True iff two lists of candidates are the same.
fn same_list(a: &Vec<CandidateIndex>, b: &Vec<CandidateIndex>) -> (res: bool)
    ensures
        res == (a@ == b@),
{
    if a.len() != b.len() {
        return false;
    }
    for i in 0..a.len()
        invariant
            a@.len() == b@.len(),
            forall|j: int| 0 <= j < i ==> a@[j] == b@[j],
    {
        if a[i] != b[i] {
            return false;
        }
    }
    assert(a@ =~= b@);
    true
}

/// The candidates elected in a count, in order of election.
fn elected_whos(es: &Vec<CandidateElected>) -> (res: Vec<CandidateIndex>)
    ensures
        res@ == whos(es@),
{
    let mut res: Vec<CandidateIndex> = Vec::new();
    for i in 0..es.len()
        invariant
            res@ == whos(es@.take(i as int)),
    {
        res.push(es[i].who);
        assert(whos(es@.take(i + 1)) =~= whos(es@.take(i as int)).push(es@[i as int].who));
    }
    assert(es@.take(es@.len() as int) =~= es@);
    res
}

/// The candidates a decision was about, least favoured group first.
fn decision_candidates(d: &TieResolutionExplicitDecision) -> (res: Vec<CandidateIndex>)
    ensures
        res@ == affected_by(*d),
{
    let ghost gs = d.increasing_favour@.map_values(|g: Vec<CandidateIndex>| g@);
    let mut res: Vec<CandidateIndex> = Vec::new();
    for i in 0..d.increasing_favour.len()
        invariant
            gs == d.increasing_favour@.map_values(|g: Vec<CandidateIndex>| g@),
            res@ == flatten(gs.take(i as int)),
    {
        let group = &d.increasing_favour[i];
        let ghost before = res@;
        for j in 0..group.len()
            invariant
                res@ == before + group@.take(j as int),
        {
            res.push(group[j]);
            assert(group@.take(j + 1) =~= group@.take(j as int).push(group@[j as int]));
        }
        assert(group@.take(group@.len() as int) =~= group@);
        assert(gs.take(i + 1).drop_last() =~= gs.take(i as int));
        assert(gs.take(i + 1).last() == group@);
    }
    assert(gs.take(gs.len() as int) =~= gs);
    res
}

/// The candidates of a list other than one.
fn all_but(v: &Vec<CandidateIndex>, c: CandidateIndex) -> (res: Vec<CandidateIndex>)
    ensures
        res@ == without(v@, c),
{
    let mut res: Vec<CandidateIndex> = Vec::new();
    for i in 0..v.len()
        invariant
            res@ == without(v@.take(i as int), c),
    {
        assert(v@.take(i + 1).drop_last() =~= v@.take(i as int));
        if v[i] != c {
            res.push(v[i]);
        }
    }
    assert(v@.take(v@.len() as int) =~= v@);
    res
}

/// What checking the name, the elected and the not continuing of count `count_number` gives:
/// the first difference found, or the decision the electoral commission must have made, or
/// `Ok(None)` when they agree.
pub open spec fn names_check_gives<Tally>(
    o: OfficialDistributionOfPreferencesTranscript,
    my_count: SingleCount<Tally>,
    count_number: CountIndex,
    res: Result<Option<TieResolutionExplicitDecisionInCount>, DifferenceBetweenOfficialDoPAndComputedOnParticularCount>,
) -> bool {
    let official = o.counts@[count_number.0 as int];
    let mine = whos(my_count.elected@);
    if name_view(my_count.count_name) != name_view(official.count_name) {
        res matches Err(DifferenceBetweenOfficialDoPAndComputedOnParticularCount::CountName(a, b))
            && name_view(a) == name_view(my_count.count_name) && name_view(b) == name_view(official.count_name)
    } else if !names_and_elected_agree(official, o.elected_candidates_are_in_order, my_count) {
        if o.elected_candidates_are_in_order {
            res matches Err(DifferenceBetweenOfficialDoPAndComputedOnParticularCount::ElectedCandidatesOrdered(a, b))
                && a@ == official.elected@ && b@ == mine
        } else {
            res matches Err(DifferenceBetweenOfficialDoPAndComputedOnParticularCount::ElectedCandidatesUnordered(a, b))
                && sorted_by_index(a@) && a@.to_multiset() == official.elected@.to_multiset()
                && sorted_by_index(b@) && b@.to_multiset() == mine.to_multiset()
        }
    } else {
        match first_where(
            official.excluded@.len() as int,
            missing_exclusion(official.excluded@, my_count.not_continuing@),
        ) {
            None => res matches Ok(None),
            Some(i) => {
                let who = official.excluded@[i];
                match first_where(my_count.decisions@.len() as int, decision_about(my_count.decisions@, who)) {
                    None => res matches Err(
                        DifferenceBetweenOfficialDoPAndComputedOnParticularCount::CandidateNotContinuingInOfficalCount(w),
                    ) && w == who,
                    Some(j) => {
                        let aff = affected_by(my_count.decisions@[j]);
                        if exists|k: int| 0 <= k < aff.len() && my_count.not_continuing@.contains(#[trigger] aff[k]) {
                            res matches Ok(Some(d)) && d.came_up_in == Some(count_number)
                                && d.decision.usage is None && d.decision.increasing_favour@.len() == 2
                                && d.decision.increasing_favour@[0]@ == seq![who]
                                && d.decision.increasing_favour@[1]@ == without(aff, who)
                        } else {
                            res matches Err(
                                DifferenceBetweenOfficialDoPAndComputedOnParticularCount::CandidateNotContinuingInOfficialCountWithPointlessDecision(w, a),
                            ) && w == who && a@ == aff
                        }
                    },
                }
            },
        }
    }
}

impl OfficialDistributionOfPreferencesTranscript {
    /// Check the name of a count, who was elected in it, and who stopped continuing. Where a
    /// candidate that the official transcript excluded is still continuing in the computed count,
    /// and a decision of the computed count was about that candidate and excluded another, the
    /// result is the decision the electoral commission must have made: that candidate was least
    /// favoured.
    #[verifier::loop_isolation(false)]
    pub fn compare_names_elected_and_excluded<Tally>(
        &self,
        my_count: &SingleCount<Tally>,
        count_number: CountIndex,
    ) -> (res: Result<Option<TieResolutionExplicitDecisionInCount>, DifferenceBetweenOfficialDoPAndComputedOnParticularCount>)
        requires
            count_number.0 < self.counts@.len(),
        ensures
            names_check_gives(*self, *my_count, count_number, res),
    {
        let official_count = &self.counts[count_number.0];
        if !same_name(&my_count.count_name, &official_count.count_name) {
            return Err(
                DifferenceBetweenOfficialDoPAndComputedOnParticularCount::CountName(
                    copy_name(&my_count.count_name),
                    copy_name(&official_count.count_name),
                ),
            );
        }
        if self.elected_candidates_are_in_order {
            let my_order = elected_whos(&my_count.elected);
            if !same_list(&official_count.elected, &my_order) {
                return Err(
                    DifferenceBetweenOfficialDoPAndComputedOnParticularCount::ElectedCandidatesOrdered(
                        copy_list(&official_count.elected),
                        my_order,
                    ),
                );
            }
        } else {
            let mut official_order = copy_list(&official_count.elected);
            sort_by_index(&mut official_order);
            let mut my_order = elected_whos(&my_count.elected);
            sort_by_index(&mut my_order);
            if !same_list(&official_order, &my_order) {
                proof {
                    if official_count.elected@.to_multiset() == whos(my_count.elected@).to_multiset() {
                        lemma_sorted_by_index_unique(official_order@, my_order@);
                    }
                }
                return Err(
                    DifferenceBetweenOfficialDoPAndComputedOnParticularCount::ElectedCandidatesUnordered(
                        official_order,
                        my_order,
                    ),
                );
            }
            proof {
                lemma_sorted_by_index_unique(official_order@, my_order@);
            }
        }
        let ghost missing = missing_exclusion(official_count.excluded@, my_count.not_continuing@);
        for e in 0..official_count.excluded.len()
            invariant
                missing == missing_exclusion(official_count.excluded@, my_count.not_continuing@),
                first_where(e as int, missing) is None,
        {
            let who = official_count.excluded[e];
            if !contains_candidate(my_count.not_continuing.as_slice(), who) {
                proof {
                    assert(missing(e as int));
                    assert(first_where(e + 1, missing) == Some(e as int));
                    lemma_first_where_stays(e + 1, official_count.excluded@.len() as int, missing);
                }
                let ghost about = decision_about(my_count.decisions@, who);
                for j in 0..my_count.decisions.len()
                    invariant
                        about == decision_about(my_count.decisions@, who),
                        first_where(j as int, about) is None,
                {
                    let affected = decision_candidates(&my_count.decisions[j]);
                    if contains_candidate(affected.as_slice(), who) {
                        proof {
                            assert(about(j as int));
                            assert(first_where(j + 1, about) == Some(j as int));
                            lemma_first_where_stays(j + 1, my_count.decisions@.len() as int, about);
                        }
                        let mut lucky = false;
                        for k in 0..affected.len()
                            invariant
                                lucky == exists|m: int| 0 <= m < k && my_count.not_continuing@.contains(#[trigger] affected@[m]),
                        {
                            if contains_candidate(my_count.not_continuing.as_slice(), affected[k]) {
                                lucky = true;
                            }
                        }
                        if lucky {
                            let favoured = all_but(&affected, who);
                            let mut least: Vec<CandidateIndex> = Vec::new();
                            least.push(who);
                            let mut increasing_favour: Vec<Vec<CandidateIndex>> = Vec::new();
                            increasing_favour.push(least);
                            increasing_favour.push(favoured);
                            assert(increasing_favour@[0]@ =~= seq![who]);
                            assert(increasing_favour@[1]@ == without(affected@, who));
                            assert(exists|m: int| 0 <= m < affected@.len() && my_count.not_continuing@.contains(#[trigger] affected@[m]));
                            return Ok(
                                Some(
                                    TieResolutionExplicitDecisionInCount {
                                        decision: TieResolutionExplicitDecision { increasing_favour, usage: None },
                                        came_up_in: Some(count_number),
                                    },
                                ),
                            );
                        } else {
                            return Err(
                                DifferenceBetweenOfficialDoPAndComputedOnParticularCount::CandidateNotContinuingInOfficialCountWithPointlessDecision(
                                    who,
                                    affected,
                                ),
                            );
                        }
                    }
                }
                return Err(DifferenceBetweenOfficialDoPAndComputedOnParticularCount::CandidateNotContinuingInOfficalCount(who));
            }
        }
        Ok(None)
    }
}


/// Which check of the numbers of papers in a count fails first, if any.
pub enum PaperCheckOutcome {
    Fine,
    TotalExhausted,
    TotalRounding,
    TotalCandidate(int),
    DeltaExhausted,
    DeltaRounding,
    DeltaCandidate(int),
    CameFrom,
}

/// The numbers of papers at the end of the previous count, if there is one.
pub open spec fn prior_papers<T>(prior: Option<SingleCount<T>>) -> Option<PerCandidate<BallotPaperCount>> {
    match prior {
        Some(p) => Some(p.status.papers),
        None => None,
    }
}

/// The number of exhausted papers at the end of the previous count (0 before the first).
pub open spec fn prior_exhausted(prior: Option<PerCandidate<BallotPaperCount>>) -> usize {
    match prior {
        Some(p) => p.exhausted.0,
        None => 0,
    }
}

/// The number of papers lost to rounding at the end of the previous count (0 before the first).
pub open spec fn prior_rounding(prior: Option<PerCandidate<BallotPaperCount>>) -> usize {
    match prior {
        Some(p) => p.rounding.value.0,
        None => 0,
    }
}

/// The number of papers candidate `c` held at the end of the previous count, as a signed number
/// (0 before the first).
pub open spec fn prior_candidate(prior: Option<PerCandidate<BallotPaperCount>>, c: int) -> isize {
    match prior {
        Some(p) => p.candidate@[c].0 as isize,
        None => 0,
    }
}

/// The computed change in the papers candidate `c` holds.
pub open spec fn change_for(mine: PerCandidate<BallotPaperCount>, prior: Option<PerCandidate<BallotPaperCount>>, c: int) -> int {
    (mine.candidate@[c].0 as isize) - prior_candidate(prior, c)
}

/// The value of a signed whole number.
pub open spec fn resolved(s: crate::signed_version::SignedVersion<isize>) -> int {
    if s.negative {
        -s.value
    } else {
        s.value as int
    }
}

/// The official total of papers for candidate `c` is not the computed one.
pub open spec fn total_differs(official: PerCandidate<usize>, mine: PerCandidate<BallotPaperCount>) -> spec_fn(int) -> bool {
    |c: int| official.candidate@[c] != mine.candidate@[c].0
}

/// The official change in papers for candidate `c` is not the computed one, and the difference
/// is not explained by negative changes missing from the official record.
pub open spec fn delta_differs(
    official: PerCandidate<isize>,
    mine: PerCandidate<BallotPaperCount>,
    prior: Option<PerCandidate<BallotPaperCount>>,
    missing_negatives: bool,
) -> spec_fn(int) -> bool {
    |c: int| official.candidate@[c] != change_for(mine, prior, c) && !(missing_negatives && change_for(mine, prior, c) < 0)
}

/// Which check of the papers of a count fails first: the totals (exhausted, rounding, then by
/// candidate), the changes (the same order), then the counts the papers came from.
pub open spec fn paper_check<T>(
    official: OfficialDOPForOneCount,
    missing_negatives: bool,
    my: SingleCount<T>,
    prior: Option<PerCandidate<BallotPaperCount>>,
) -> PaperCheckOutcome {
    let mine = my.status.papers;
    let totals = match official.paper_total {
        None => PaperCheckOutcome::Fine,
        Some(pt) => if pt.exhausted != mine.exhausted.0 {
            PaperCheckOutcome::TotalExhausted
        } else if pt.rounding.value != mine.rounding.value.0 {
            PaperCheckOutcome::TotalRounding
        } else {
            match first_where(pt.candidate@.len() as int, total_differs(pt, mine)) {
                Some(c) => PaperCheckOutcome::TotalCandidate(c),
                None => PaperCheckOutcome::Fine,
            }
        },
    };
    let deltas = match official.paper_delta {
        None => PaperCheckOutcome::Fine,
        Some(pd) => if pd.exhausted != ((mine.exhausted.0 - prior_exhausted(prior)) as usize) as isize {
            PaperCheckOutcome::DeltaExhausted
        } else if resolved(pd.rounding) != ((mine.rounding.value.0 - prior_rounding(prior)) as usize) as isize {
            PaperCheckOutcome::DeltaRounding
        } else {
            match first_where(pd.candidate@.len() as int, delta_differs(pd, mine, prior, missing_negatives)) {
                Some(c) => PaperCheckOutcome::DeltaCandidate(c),
                None => PaperCheckOutcome::Fine,
            }
        },
    };
    if !(totals is Fine) {
        totals
    } else if !(deltas is Fine) {
        deltas
    } else {
        match official.papers_came_from_counts {
            Some(from) => if from@ != my.portion.papers_came_from_counts@ {
                PaperCheckOutcome::CameFrom
            } else {
                PaperCheckOutcome::Fine
            },
            None => PaperCheckOutcome::Fine,
        }
    }
}

/// What is needed to check the papers of a count without running off a list or below zero.
pub open spec fn papers_checkable<T>(official: OfficialDOPForOneCount, my: SingleCount<T>, prior: Option<PerCandidate<BallotPaperCount>>) -> bool {
    let mine = my.status.papers;
    &&& official.paper_total matches Some(pt) ==> {
        &&& pt.candidate@.len() <= mine.candidate@.len()
        &&& !pt.rounding.negative
        &&& !mine.rounding.negative
    }
    &&& official.paper_delta matches Some(pd) ==> {
        &&& pd.candidate@.len() <= mine.candidate@.len()
        &&& !mine.rounding.negative
        &&& prior_exhausted(prior) <= mine.exhausted.0
        &&& prior_rounding(prior) <= mine.rounding.value.0
        &&& !(pd.rounding.negative && pd.rounding.value == isize::MIN)
        &&& prior matches Some(p) ==> pd.candidate@.len() <= p.candidate@.len() && !p.rounding.negative
        &&& forall|c: int| 0 <= c < pd.candidate@.len() ==> isize::MIN <= #[trigger] change_for(mine, prior, c) <= isize::MAX
    }
}

/// A copy of a list of counts.
fn copy_counts(v: &Vec<CountIndex>) -> (res: Vec<CountIndex>)
    ensures
        res@ == v@,
{
    let mut res: Vec<CountIndex> = Vec::new();
    for i in 0..v.len()
        invariant
            res@ == v@.take(i as int),
    {
        res.push(v[i]);
        assert(v@.take(i + 1) =~= v@.take(i as int).push(v@[i as int]));
    }
    assert(v@.take(v@.len() as int) =~= v@);
    res
}

/// True iff two lists of counts are the same.
fn same_counts(a: &Vec<CountIndex>, b: &Vec<CountIndex>) -> (res: bool)
    ensures
        res == (a@ == b@),
{
    if a.len() != b.len() {
        return false;
    }
    for i in 0..a.len()
        invariant
            a@.len() == b@.len(),
            forall|j: int| 0 <= j < i ==> a@[j] == b@[j],
    {
        if a[i].0 != b[i].0 {
            return false;
        }
    }
    assert(a@ =~= b@);
    true
}

/// What checking the numbers of papers of count `count_number` gives, with the papers `prior` at
/// the end of the count before: the first difference found, or `Ok(())`.
pub open spec fn papers_check_gives<Tally>(
    o: OfficialDistributionOfPreferencesTranscript,
    my_count: SingleCount<Tally>,
    prior: Option<PerCandidate<BallotPaperCount>>,
    count_number: CountIndex,
    res: Result<(), DifferenceBetweenOfficialDoPAndComputedOnParticularCount>,
) -> bool {
    let official = o.counts@[count_number.0 as int];
    let mine = my_count.status.papers;
    match paper_check(official, o.missing_negatives_in_papers_delta, my_count, prior) {
        PaperCheckOutcome::Fine => res is Ok,
        PaperCheckOutcome::TotalExhausted => res matches Err(
            DifferenceBetweenOfficialDoPAndComputedOnParticularCount::PaperTotalExhausted(a, b),
        ) && a.0 == official.paper_total->0.exhausted && b == mine.exhausted,
        PaperCheckOutcome::TotalRounding => res matches Err(
            DifferenceBetweenOfficialDoPAndComputedOnParticularCount::PaperTotalRounding(a, b),
        ) && a.0 == official.paper_total->0.rounding.value && b == mine.rounding.value,
        PaperCheckOutcome::TotalCandidate(c) => res matches Err(
            DifferenceBetweenOfficialDoPAndComputedOnParticularCount::PaperTotalCandidate(a, b, w),
        ) && a.0 == official.paper_total->0.candidate@[c] && b == mine.candidate@[c] && w.0 == c,
        PaperCheckOutcome::DeltaExhausted => res matches Err(
            DifferenceBetweenOfficialDoPAndComputedOnParticularCount::PaperDeltaExhausted(a, b),
        ) && a == official.paper_delta->0.exhausted && b == mine.exhausted.0 - prior_exhausted(prior),
        PaperCheckOutcome::DeltaRounding => res matches Err(
            DifferenceBetweenOfficialDoPAndComputedOnParticularCount::PaperDeltaRounding(a, b),
        ) && a == resolved(official.paper_delta->0.rounding) && b == mine.rounding.value.0 - prior_rounding(prior),
        PaperCheckOutcome::DeltaCandidate(c) => res matches Err(
            DifferenceBetweenOfficialDoPAndComputedOnParticularCount::PaperDeltaCandidate(a, b, w),
        ) && a == official.paper_delta->0.candidate@[c] && b == change_for(mine, prior, c) && w.0 == c,
        PaperCheckOutcome::CameFrom => res matches Err(
            DifferenceBetweenOfficialDoPAndComputedOnParticularCount::FromCounts(a, b),
        ) && a@ == official.papers_came_from_counts->0@ && b@ == my_count.portion.papers_came_from_counts@,
    }
}

impl OfficialDistributionOfPreferencesTranscript {
    /// Check the numbers of papers of a count: the totals, the changes from the previous count
    /// (`my_prior_count`, absent for the first count), and the counts the papers came from.
    #[verifier::loop_isolation(false)]
    pub fn compare_papers<Tally>(
        &self,
        my_count: &SingleCount<Tally>,
        my_prior_count: Option<&SingleCount<Tally>>,
        count_number: CountIndex,
    ) -> (res: Result<(), DifferenceBetweenOfficialDoPAndComputedOnParticularCount>)
        requires
            count_number.0 < self.counts@.len(),
            papers_checkable(
                self.counts@[count_number.0 as int],
                *my_count,
                prior_papers(match my_prior_count {
                    Some(p) => Some(*p),
                    None => None,
                }),
            ),
        ensures
            papers_check_gives(
                *self,
                *my_count,
                prior_papers(match my_prior_count {
                    Some(p) => Some(*p),
                    None => None,
                }),
                count_number,
                res,
            ),
    {
        let official_count = &self.counts[count_number.0];
        let ghost prior = prior_papers(match my_prior_count {
            Some(p) => Some(*p),
            None => None,
        });
        let mine = &my_count.status.papers;
        if let Some(paper_total) = &official_count.paper_total {
            if paper_total.exhausted != mine.exhausted.0 {
                return Err(
                    DifferenceBetweenOfficialDoPAndComputedOnParticularCount::PaperTotalExhausted(
                        BallotPaperCount(paper_total.exhausted),
                        mine.exhausted,
                    ),
                );
            }
            if paper_total.rounding.assume_positive() != mine.rounding.assume_positive().0 {
                return Err(
                    DifferenceBetweenOfficialDoPAndComputedOnParticularCount::PaperTotalRounding(
                        BallotPaperCount(paper_total.rounding.assume_positive()),
                        mine.rounding.assume_positive(),
                    ),
                );
            }
            let ghost bad = total_differs(*paper_total, *mine);
            for candidate in 0..paper_total.candidate.len()
                invariant
                    bad == total_differs(*paper_total, *mine),
                    first_where(candidate as int, bad) is None,
            {
                if paper_total.candidate[candidate] != mine.candidate[candidate].0 {
                    proof {
                        assert(bad(candidate as int));
                        lemma_first_where_stays(candidate + 1, paper_total.candidate@.len() as int, bad);
                    }
                    return Err(
                        DifferenceBetweenOfficialDoPAndComputedOnParticularCount::PaperTotalCandidate(
                            BallotPaperCount(paper_total.candidate[candidate]),
                            mine.candidate[candidate],
                            CandidateIndex(candidate),
                        ),
                    );
                }
            }
        }
        if let Some(paper_delta) = &official_count.paper_delta {
            let prior_exhausted_now: usize = match my_prior_count {
                Some(p) => p.status.papers.exhausted.0,
                None => 0,
            };
            let my_change_exhausted = mine.exhausted.0 - prior_exhausted_now;
            if paper_delta.exhausted != my_change_exhausted as isize {
                return Err(
                    DifferenceBetweenOfficialDoPAndComputedOnParticularCount::PaperDeltaExhausted(
                        paper_delta.exhausted,
                        my_change_exhausted,
                    ),
                );
            }
            let prior_rounding_now: usize = match my_prior_count {
                Some(p) => p.status.papers.rounding.assume_positive().0,
                None => 0,
            };
            let my_change_rounding = mine.rounding.assume_positive().0 - prior_rounding_now;
            let official_rounding: isize = if paper_delta.rounding.negative {
                -paper_delta.rounding.value
            } else {
                paper_delta.rounding.value
            };
            if official_rounding != my_change_rounding as isize {
                return Err(
                    DifferenceBetweenOfficialDoPAndComputedOnParticularCount::PaperDeltaRounding(
                        official_rounding,
                        my_change_rounding,
                    ),
                );
            }
            let ghost bad = delta_differs(*paper_delta, *mine, prior, self.missing_negatives_in_papers_delta);
            for candidate in 0..paper_delta.candidate.len()
                invariant
                    bad == delta_differs(*paper_delta, *mine, prior, self.missing_negatives_in_papers_delta),
                    first_where(candidate as int, bad) is None,
            {
                let prior_here: isize = match my_prior_count {
                    Some(p) => p.status.papers.candidate[candidate].0 as isize,
                    None => 0,
                };
                proof {
                    assert(isize::MIN <= change_for(*mine, prior, candidate as int) <= isize::MAX);
                }
                let my_change_candidate = mine.candidate[candidate].0 as isize - prior_here;
                if paper_delta.candidate[candidate] != my_change_candidate && !(self.missing_negatives_in_papers_delta
                    && my_change_candidate < 0) {
                    proof {
                        assert(bad(candidate as int));
                        lemma_first_where_stays(candidate + 1, paper_delta.candidate@.len() as int, bad);
                    }
                    return Err(
                        DifferenceBetweenOfficialDoPAndComputedOnParticularCount::PaperDeltaCandidate(
                            paper_delta.candidate[candidate],
                            my_change_candidate,
                            CandidateIndex(candidate),
                        ),
                    );
                }
            }
        }
        if let Some(papers_came_from_counts) = &official_count.papers_came_from_counts {
            if !same_counts(papers_came_from_counts, &my_count.portion.papers_came_from_counts) {
                return Err(
                    DifferenceBetweenOfficialDoPAndComputedOnParticularCount::FromCounts(
                        copy_counts(papers_came_from_counts),
                        copy_counts(&my_count.portion.papers_came_from_counts),
                    ),
                );
            }
        }
        Ok(())
    }
}


/// A count of which nothing is known yet.
pub open spec fn blank_count(c: OfficialDOPForOneCount) -> bool {
    &&& c.elected@.len() == 0
    &&& c.excluded@.len() == 0
    &&& c.paper_total is None
    &&& c.paper_delta is None
    &&& c.count_name is None
    &&& c.papers_came_from_counts is None
}

/// Nothing for anyone, as signed numbers.
pub open spec fn blank_signed(p: PerCandidate<isize>) -> bool {
    p.candidate@.len() == 0 && p.exhausted == 0 && !p.rounding.negative && p.rounding.value == 0 && p.set_aside is None
}

impl OfficialDOPForOneCount {
    /// A count of which nothing is known yet.
    pub fn default() -> (res: Self)
        ensures
            blank_count(res),
    {
        OfficialDOPForOneCount {
            elected: Vec::new(),
            excluded: Vec::new(),
            paper_total: None,
            paper_delta: None,
            count_name: None,
            papers_came_from_counts: None,
        }
    }

    /// The totals of papers, made empty first if there were none.
    pub fn paper_total(&mut self) -> (res: &mut PerCandidate<usize>)
        ensures
            match old(self).paper_total {
                Some(p) => *res == p,
                None => res.candidate@.len() == 0 && res.exhausted == 0 && !res.rounding.negative && res.rounding.value
                    == 0 && res.set_aside is None,
            },
            final(self).paper_total == Some(*final(res)),
            final(self).elected == old(self).elected,
            final(self).excluded == old(self).excluded,
            final(self).paper_delta == old(self).paper_delta,
            final(self).count_name == old(self).count_name,
            final(self).papers_came_from_counts == old(self).papers_came_from_counts,
    {
        self.paper_total.get_or_insert(PerCandidate::default())
    }

    /// The changes in papers, made empty first if there were none.
    pub fn paper_delta(&mut self) -> (res: &mut PerCandidate<isize>)
        ensures
            match old(self).paper_delta {
                Some(p) => *res == p,
                None => blank_signed(*res),
            },
            final(self).paper_delta == Some(*final(res)),
            final(self).elected == old(self).elected,
            final(self).excluded == old(self).excluded,
            final(self).paper_total == old(self).paper_total,
            final(self).count_name == old(self).count_name,
            final(self).papers_came_from_counts == old(self).papers_came_from_counts,
    {
        let blank = PerCandidate {
            candidate: Vec::new(),
            exhausted: 0isize,
            rounding: crate::signed_version::SignedVersion { negative: false, value: 0isize },
            set_aside: None,
        };
        self.paper_delta.get_or_insert(blank)
    }
}

/// The candidates elected in the counts, count by count.
pub open spec fn all_elected_in(counts: Seq<OfficialDOPForOneCount>) -> Seq<CandidateIndex> {
    flatten(counts.map_values(|c: OfficialDOPForOneCount| c.elected@))
}

impl OfficialDistributionOfPreferencesTranscript {
    /// A transcript with no counts yet.
    pub fn default() -> (res: Self)
        ensures
            res.counts@.len() == 0,
            !res.missing_negatives_in_papers_delta,
            !res.elected_candidates_are_in_order,
            !res.all_exhausted_go_to_rounding,
    {
        OfficialDistributionOfPreferencesTranscript {
            counts: Vec::new(),
            missing_negatives_in_papers_delta: false,
            elected_candidates_are_in_order: false,
            all_exhausted_go_to_rounding: false,
        }
    }

    /// Start a new count.
    pub fn finished_count(&mut self)
        ensures
            final(self).counts@.len() == old(self).counts@.len() + 1,
            final(self).counts@.drop_last() == old(self).counts@,
            blank_count(final(self).counts@.last()),
            final(self).missing_negatives_in_papers_delta == old(self).missing_negatives_in_papers_delta,
            final(self).elected_candidates_are_in_order == old(self).elected_candidates_are_in_order,
            final(self).all_exhausted_go_to_rounding == old(self).all_exhausted_go_to_rounding,
    {
        self.counts.push(OfficialDOPForOneCount::default());
        assert(self.counts@.drop_last() =~= old(self).counts@);
    }

    /// The current count, the last one started.
    pub fn count(&mut self) -> (res: &mut OfficialDOPForOneCount)
        requires
            old(self).counts@.len() > 0,
        ensures
            *res == old(self).counts@.last(),
            final(self).counts@ == old(self).counts@.update(old(self).counts@.len() - 1, *final(res)),
            final(self).missing_negatives_in_papers_delta == old(self).missing_negatives_in_papers_delta,
            final(self).elected_candidates_are_in_order == old(self).elected_candidates_are_in_order,
            final(self).all_exhausted_go_to_rounding == old(self).all_exhausted_go_to_rounding,
    {
        let last = self.counts.len() - 1;
        &mut self.counts[last]
    }

    /// All the candidates elected, count by count.
    pub fn all_elected(&self) -> (res: Vec<CandidateIndex>)
        ensures
            res@ == all_elected_in(self.counts@),
    {
        let ghost gs = self.counts@.map_values(|c: OfficialDOPForOneCount| c.elected@);
        let mut res: Vec<CandidateIndex> = Vec::new();
        for i in 0..self.counts.len()
            invariant
                gs == self.counts@.map_values(|c: OfficialDOPForOneCount| c.elected@),
                res@ == flatten(gs.take(i as int)),
        {
            let elected = &self.counts[i].elected;
            let ghost before = res@;
            for j in 0..elected.len()
                invariant
                    res@ == before + elected@.take(j as int),
            {
                res.push(elected[j]);
                assert(elected@.take(j + 1) =~= elected@.take(j as int).push(elected@[j as int]));
            }
            assert(elected@.take(elected@.len() as int) =~= elected@);
            assert(gs.take(i + 1).drop_last() =~= gs.take(i as int));
            assert(gs.take(i + 1).last() == elected@);
        }
        assert(gs.take(gs.len() as int) =~= gs);
        res
    }
}

/// Make sure the list is long enough to hold an entry for `who` (filling it with copies of a
/// default value), and give access to that entry.
pub fn candidate_elem<T: Default + Clone>(vec: &mut Vec<T>, who: CandidateIndex) -> (res: &mut T)
    requires
        who.0 < usize::MAX,
    ensures
        old(vec)@.len() > who.0 ==> *res == old(vec)@[who.0 as int] && final(vec)@ == old(vec)@.update(
            who.0 as int,
            *final(res),
        ),
        old(vec)@.len() <= who.0 ==> {
            &&& final(vec)@.len() == who.0 + 1
            &&& final(vec)@.take(old(vec)@.len() as int) == old(vec)@
            &&& final(vec)@[who.0 as int] == *final(res)
            &&& exists|d: T|
                call_ensures(T::default, (), d) && cloned::<T>(d, *res) && forall|i: int|
                    old(vec)@.len() <= i < who.0 ==> cloned::<T>(d, #[trigger] final(vec)@[i])
        },
{
    if vec.len() <= who.0 {
        let make = T::default;
        let d = make();
        let ghost dv = d;
        vec.resize(who.0 + 1, d);
        assert(cloned::<T>(dv, vec@[who.0 as int]));
    }
    &mut vec[who.0]
}


/// A number in a list of counts could not be read.
#[derive(Clone, Copy, Debug)]
pub struct BadCountNumber;

/// `pattern` occurs in `s` starting at index `i`.
pub open spec fn occurs_at(s: Seq<char>, pattern: Seq<char>, i: int) -> bool {
    0 <= i && i + pattern.len() <= s.len() && s.subrange(i, i + pattern.len()) == pattern
}

/// The first index at or after `i` where `pattern` occurs in `s`, as `str::find` gives it.
pub open spec fn find_from_spec(s: Seq<char>, pattern: Seq<char>, i: int) -> Option<int>
    decreases s.len() + 1 - i,
{
    if i < 0 || i + pattern.len() > s.len() {
        None
    } else if occurs_at(s, pattern, i) {
        Some(i)
    } else {
        find_from_spec(s, pattern, i + 1)
    }
}

/// The text of a list of counts in a comment: what comes after the first occurrence of `start`,
/// if the comment ends with `suffix`, without that suffix.
pub open spec fn count_list_text(comment: Seq<char>, start: Seq<char>, suffix: Seq<char>) -> Option<Seq<char>> {
    match find_from_spec(comment, start, 0) {
        None => None,
        Some(pos) => {
            let rest = comment.skip(pos + start.len());
            if rest.len() >= suffix.len() && rest.skip(rest.len() - suffix.len()) == suffix {
                Some(rest.take(rest.len() - suffix.len()))
            } else {
                None
            }
        },
    }
}

/// The numbers written in the pieces, each read as a usize after trimming white space, if all can be.
pub open spec fn count_numbers(pieces: Seq<Seq<char>>) -> Option<Seq<usize>>
    decreases pieces.len(),
{
    if pieces.len() == 0 {
        Some(Seq::empty())
    } else {
        match (count_numbers(pieces.drop_last()), parse_unsigned_spec(trim(pieces.last()), usize::MAX as nat)) {
            (Some(vs), Some(v)) => Some(vs.push(v as usize)),
            _ => None,
        }
    }
}

/// The 1-based numbers of some counts.
pub open spec fn one_based(cs: Seq<CountIndex>) -> Seq<usize> {
    cs.map_values(|c: CountIndex| (c.0 + 1) as usize)
}

/// The counts are in increasing order.
pub open spec fn counts_ascending(cs: Seq<CountIndex>) -> bool {
    forall|i: int, j: int| 0 <= i < j < cs.len() ==> #[trigger] cs[i].0 <= #[trigger] cs[j].0
}

/// Sort numbers into increasing order.
fn sort_numbers(v: &mut Vec<usize>)
    ensures
        final(v)@.to_multiset() == old(v)@.to_multiset(),
        final(v)@.len() == old(v)@.len(),
        forall|a: int, b: int| 0 <= a < b < final(v)@.len() ==> #[trigger] final(v)@[a] <= #[trigger] final(v)@[b],
{
    let ghost orig = v@;
    if v.len() == 0 {
        return;
    }
    let mut i: usize = 1;
    while i < v.len()
        invariant
            1 <= i <= v@.len(),
            v@.len() == orig.len(),
            v@.to_multiset() == orig.to_multiset(),
            forall|a: int, b: int| 0 <= a < b < i ==> #[trigger] v@[a] <= #[trigger] v@[b],
        decreases v@.len() - i,
    {
        let mut j: usize = i;
        while j > 0 && v[j - 1] > v[j]
            invariant
                0 <= j <= i < v@.len(),
                v@.len() == orig.len(),
                v@.to_multiset() == orig.to_multiset(),
                forall|a: int, b: int| 0 <= a < b <= i && b != j && a != j ==> #[trigger] v@[a] <= #[trigger] v@[b],
                forall|b: int| j < b <= i ==> v@[j as int] < #[trigger] v@[b],
            decreases j,
        {
            let x = v[j - 1];
            let y = v[j];
            proof {
                crate::util::lemma_swap_multiset(v@, j - 1, j as int);
            }
            v.set(j - 1, y);
            v.set(j, x);
            j = j - 1;
        }
        i = i + 1;
    }
}

/// What `find_from_spec` finds is an occurrence, at or after where the search started.
proof fn lemma_find_from_spec(s: Seq<char>, pattern: Seq<char>, i: int)
    ensures
        find_from_spec(s, pattern, i) matches Some(k) ==> i <= k && occurs_at(s, pattern, k),
    decreases s.len() + 1 - i,
{
    if !(i < 0 || i + pattern.len() > s.len()) && !occurs_at(s, pattern, i) {
        lemma_find_from_spec(s, pattern, i + 1);
    }
}

/// Where `pattern` first occurs in `chars`, as `str::find` gives it.
#[verifier::loop_isolation(false)]
fn find_text(chars: &Vec<char>, pattern: &Vec<char>) -> (res: Option<usize>)
    ensures
        match find_from_spec(chars@, pattern@, 0) {
            Some(i) => res == Some(i as usize),
            None => res is None,
        },
{
    if pattern.len() > chars.len() {
        return None;
    }
    let last = chars.len() - pattern.len();
    let mut i: usize = 0;
    loop
        invariant
            last == chars@.len() - pattern@.len(),
            i <= last,
            find_from_spec(chars@, pattern@, 0) == find_from_spec(chars@, pattern@, i as int),
        decreases last - i,
    {
        let mut k: usize = 0;
        while k < pattern.len() && chars[i + k] == pattern[k]
            invariant
                i <= last,
                last == chars@.len() - pattern@.len(),
                k <= pattern@.len(),
                forall|m: int| 0 <= m < k ==> chars@[i + m] == pattern@[m],
            decreases pattern@.len() - k,
        {
            k = k + 1;
        }
        if k == pattern.len() {
            assert(chars@.subrange(i as int, i + pattern@.len()) =~= pattern@);
            return Some(i);
        }
        assert(chars@.subrange(i as int, i + pattern@.len())[k as int] != pattern@[k as int]);
        assert(!occurs_at(chars@, pattern@, i as int));
        if i == last {
            assert(find_from_spec(chars@, pattern@, i + 1) is None);
            return None;
        }
        i = i + 1;
    }
}

impl OfficialDOPForOneCount {
    /// Given a comment containing a comma separated list of 1 based counts, starting with
    /// `start_count_list_string` and ending in `suffix`, get the list of counts, in increasing
    /// order. `None` if the comment has no such list; an error if a number cannot be read.
    #[verifier::loop_isolation(false)]
    pub fn extract_counts_from_comment(
        comment: &str,
        start_count_list_string: &str,
        suffix: &str,
    ) -> (res: Result<Option<Vec<CountIndex>>, BadCountNumber>)
        requires
            count_list_text(comment@, start_count_list_string@, suffix@) matches Some(t) ==> (count_numbers(
                split_on(trim(t), ','),
            ) matches Some(vs) ==> forall|k: int| 0 <= k < vs.len() ==> #[trigger] vs[k] > 0),
        ensures
            match count_list_text(comment@, start_count_list_string@, suffix@) {
                None => res matches Ok(None),
                Some(t) => match count_numbers(split_on(trim(t), ',')) {
                    None => res is Err,
                    Some(vs) => res matches Ok(Some(out)) && counts_ascending(out@) && one_based(out@).to_multiset()
                        == vs.to_multiset(),
                },
            },
    {
        let chars = chars_of(comment);
        let start = chars_of(start_count_list_string);
        let suffix_chars = chars_of(suffix);
        let found = find_text(&chars, &start);
        let chars_len = chars.len();
        let pos = match found {
            None => return Ok(None),
            Some(p) => p,
        };
        proof {
            lemma_find_from_spec(chars@, start@, 0);
            let k = find_from_spec(chars@, start@, 0)->0;
            assert(occurs_at(chars@, start@, k));
            assert(pos == k);
        }
        let from = pos + start.len();
        let ghost rest = chars@.skip(from as int);
        if chars.len() - from < suffix_chars.len() {
            return Ok(None);
        }
        let end = chars.len() - suffix_chars.len();
        let mut k: usize = 0;
        while k < suffix_chars.len()
            invariant
                end == chars@.len() - suffix_chars@.len(),
                from <= end,
                k <= suffix_chars@.len(),
                forall|m: int| 0 <= m < k ==> chars@[end + m] == suffix_chars@[m],
            decreases suffix_chars@.len() - k,
        {
            if chars[end + k] != suffix_chars[k] {
                assert(rest.skip(rest.len() - suffix_chars@.len())[k as int] == chars@[end + k]);
                return Ok(None);
            }
            k = k + 1;
        }
        assert(rest.skip(rest.len() - suffix_chars@.len()) =~= suffix_chars@);
        let inner = trimmed_range(&chars, from, end);
        assert(chars@.subrange(from as int, end as int) =~= rest.take(rest.len() - suffix_chars@.len()));
        let inner_text = crate::text::string_of(&inner);
        let pieces = split_text(inner_text.as_str(), ',');
        let ghost ps = split_on(inner_text@, ',');
        let mut values: Vec<usize> = Vec::new();
        for i in 0..pieces.len()
            invariant
                texts_of(pieces@) == ps,
                count_numbers(ps.take(i as int)) == Some(values@),
        {
            assert(ps.take(i + 1).drop_last() =~= ps.take(i as int));
            assert(ps.take(i + 1).last() == pieces@[i as int]@);
            let piece_chars = chars_of(pieces[i].as_str());
            let trimmed = trimmed_range(&piece_chars, 0, piece_chars.len());
            assert(piece_chars@.subrange(0, piece_chars@.len() as int) =~= piece_chars@);
            let trimmed_text = crate::text::string_of(&trimmed);
            match parse_unsigned(trimmed_text.as_str(), usize::MAX as u64) {
                Some(v) => {
                    values.push(v as usize);
                },
                None => {
                    proof {
                        lemma_count_numbers_none(ps, i + 1);
                    }
                    return Err(BadCountNumber);
                },
            }
        }
        assert(ps.take(ps.len() as int) =~= ps);
        let ghost vs = values@;
        assert(count_list_text(comment@, start_count_list_string@, suffix@) == Some(chars@.subrange(from as int, end as int)));
        assert(trim(chars@.subrange(from as int, end as int)) == inner_text@);
        assert(count_numbers(split_on(inner_text@, ',')) == Some(vs));
        proof {
            let t = count_list_text(comment@, start_count_list_string@, suffix@)->0;
            assert(t == chars@.subrange(from as int, end as int));
            assert(split_on(trim(t), ',') == split_on(inner_text@, ','));
            assert(count_numbers(split_on(trim(t), ',')) == Some(vs));
            assert forall|m: int| 0 <= m < vs.len() implies #[trigger] vs[m] > 0 by {
                assert(count_numbers(split_on(trim(t), ','))->0[m] > 0);
            }
        }
        sort_numbers(&mut values);
        assert forall|m: int| 0 <= m < values@.len() implies #[trigger] values@[m] > 0 by {
            broadcast use vstd::seq_lib::group_to_multiset_ensures;
            assert(values@.to_multiset().count(values@[m]) > 0);
            assert(vs.to_multiset().count(values@[m]) > 0);
            assert(vs.contains(values@[m]));
            let j = choose|j: int| 0 <= j < vs.len() && vs[j] == values@[m];
            assert(vs[j] > 0);
        }
        let mut out: Vec<CountIndex> = Vec::new();
        for i in 0..values.len()
            invariant
                forall|m: int| 0 <= m < values@.len() ==> #[trigger] values@[m] > 0,
                out@.len() == i,
                forall|m: int| 0 <= m < i ==> #[trigger] out@[m].0 == values@[m] - 1,
        {
            out.push(CountIndex(values[i] - 1));
        }
        assert(one_based(out@) =~= values@);
        Ok(Some(out))
    }
}

/// Once a piece cannot be read, the whole list cannot be.
proof fn lemma_count_numbers_none(pieces: Seq<Seq<char>>, k: int)
    requires
        0 <= k <= pieces.len(),
        count_numbers(pieces.take(k)) is None,
    ensures
        count_numbers(pieces) is None,
    decreases pieces.len() - k,
{
    if k < pieces.len() {
        assert(pieces.take(k + 1).drop_last() =~= pieces.take(k));
        lemma_count_numbers_none(pieces, k + 1);
    } else {
        assert(pieces.take(k) =~= pieces);
    }
}


/// How the official transcript differs from the computed one.
#[derive(Clone, Debug)]
pub enum DifferenceBetweenOfficialDoPAndComputed {
    /// They differ on the given count (with the computed count's name).
    DifferentOnCount(CountIndex, Option<String>, DifferenceBetweenOfficialDoPAndComputedOnParticularCount),
    /// The official and computed transcripts have these numbers of counts.
    DifferentNumbersOfCounts(usize, usize),
}

/// The papers at the end of the count before count `k` of the transcript, if there is one.
pub open spec fn prior_of<T>(t: Transcript<T>, k: int) -> Option<PerCandidate<BallotPaperCount>> {
    prior_papers(if k > 0 {
        Some(t.counts@[k - 1])
    } else {
        None
    })
}

/// Count `k` of the official transcript and of the computed one agree: the name, who was
/// elected, that the officially excluded stopped continuing, and the numbers of papers.
pub open spec fn count_agrees<T>(o: OfficialDistributionOfPreferencesTranscript, t: Transcript<T>, k: int) -> bool {
    let off = o.counts@[k];
    let my = t.counts@[k];
    &&& names_and_elected_agree(off, o.elected_candidates_are_in_order, my)
    &&& first_where(off.excluded@.len() as int, missing_exclusion(off.excluded@, my.not_continuing@)) is None
    &&& paper_check(off, o.missing_negatives_in_papers_delta, my, prior_of(t, k)) is Fine
}

/// Count `k` does not agree.
pub open spec fn count_disagrees<T>(o: OfficialDistributionOfPreferencesTranscript, t: Transcript<T>) -> spec_fn(int) -> bool {
    |k: int| !count_agrees(o, t, k)
}

/// The number of counts both transcripts have.
pub open spec fn common_counts<T>(o: OfficialDistributionOfPreferencesTranscript, t: Transcript<T>) -> int {
    if o.counts@.len() < t.counts@.len() {
        o.counts@.len() as int
    } else {
        t.counts@.len() as int
    }
}

/// `res` reports difference `e` on count `index`, whose computed name is `name`.
pub open spec fn reported_on_count(
    res: Result<Option<TieResolutionExplicitDecisionInCount>, DifferenceBetweenOfficialDoPAndComputed>,
    index: CountIndex,
    name: Option<String>,
    e: DifferenceBetweenOfficialDoPAndComputedOnParticularCount,
) -> bool {
    match res {
        Err(DifferenceBetweenOfficialDoPAndComputed::DifferentOnCount(c, n, d)) => c == index && name_view(n) == name_view(name)
            && d == e,
        _ => false,
    }
}

/// What comparing count `k` gives: what checking its names, elected and not continuing gives
/// (a difference, reported on the count, or the decision the commission must have made), and,
/// where that finds nothing, the difference that checking its numbers of papers gives.
pub open spec fn count_compared_gives<T>(
    o: OfficialDistributionOfPreferencesTranscript,
    t: Transcript<T>,
    k: int,
    res: Result<Option<TieResolutionExplicitDecisionInCount>, DifferenceBetweenOfficialDoPAndComputed>,
) -> bool {
    let my = t.counts@[k];
    let index = CountIndex(k as usize);
    ||| exists|e: DifferenceBetweenOfficialDoPAndComputedOnParticularCount|
        #[trigger] names_check_gives(o, my, index, Err(e)) && reported_on_count(res, index, my.count_name, e)
    ||| exists|d: TieResolutionExplicitDecisionInCount| #[trigger] names_check_gives(o, my, index, Ok(Some(d))) && res == Ok::<
        Option<TieResolutionExplicitDecisionInCount>,
        DifferenceBetweenOfficialDoPAndComputed,
    >(Some(d))
    ||| names_check_gives(o, my, index, Ok(None)) && exists|e: DifferenceBetweenOfficialDoPAndComputedOnParticularCount|
        #[trigger] papers_check_gives(o, my, prior_of(t, k), index, Err(e)) && reported_on_count(res, index, my.count_name, e)
}

impl OfficialDistributionOfPreferencesTranscript {
    /// Compare the official transcript with a computed one, count by count: at the first count
    /// that does not agree, the result is the difference found there, or, where the official
    /// count excluded a candidate that a random decision of the computed count kept, the
    /// decision the electoral commission must have made. If all the counts both have agree, the
    /// numbers of counts must be the same.
    #[verifier::loop_isolation(false)]
    pub fn compare_with_transcript_checking_for_ec_decisions<Tally>(&self, transcript: &Transcript<Tally>) -> (res: Result<
        Option<TieResolutionExplicitDecisionInCount>,
        DifferenceBetweenOfficialDoPAndComputed,
    >)
        requires
            forall|k: int|
                0 <= k < common_counts(*self, *transcript) ==> papers_checkable(
                    #[trigger] self.counts@[k],
                    transcript.counts@[k],
                    prior_of(*transcript, k),
                ),
        ensures
            match first_where(common_counts(*self, *transcript), count_disagrees(*self, *transcript)) {
                None => if self.counts@.len() == transcript.counts@.len() {
                    res matches Ok(None)
                } else {
                    res matches Err(DifferenceBetweenOfficialDoPAndComputed::DifferentNumbersOfCounts(a, b)) && a
                        == self.counts@.len() && b == transcript.counts@.len()
                },
                Some(k) => count_compared_gives(*self, *transcript, k, res),
            },
    {
        let n = if self.counts.len() < transcript.counts.len() {
            self.counts.len()
        } else {
            transcript.counts.len()
        };
        let ghost bad = count_disagrees(*self, *transcript);
        for k in 0..n
            invariant
                n == common_counts(*self, *transcript),
                forall|j: int| 0 <= j < k ==> count_agrees(*self, *transcript, j),
        {
            let my_count = &transcript.counts[k];
            proof {
                assert(bad(k as int) ==> first_where(n as int, bad) == Some(k as int)) by {
                    if bad(k as int) {
                        lemma_first_where_is_first(k as int, bad);
                        assert(first_where(k as int + 1, bad) == Some(k as int));
                        lemma_first_where_stays(k as int + 1, n as int, bad);
                    }
                }
            }
            let names = self.compare_names_elected_and_excluded(my_count, CountIndex(k));
            match names {
                Err(e) => {
                    assert(names_check_gives(*self, *my_count, CountIndex(k), Err(e)));
                    return Err(DifferenceBetweenOfficialDoPAndComputed::DifferentOnCount(CountIndex(k), copy_name(&my_count.count_name), e));
                },
                Ok(Some(d)) => {
                    assert(names_check_gives(*self, *my_count, CountIndex(k), Ok(Some(d))));
                    return Ok(Some(d));
                },
                Ok(None) => {},
            }
            let prior = if k > 0 {
                Some(&transcript.counts[k - 1])
            } else {
                None
            };
            assert(papers_checkable(self.counts@[k as int], transcript.counts@[k as int], prior_of(*transcript, k as int)));
            let papers = self.compare_papers(my_count, prior, CountIndex(k));
            match papers {
                Err(e) => {
                    assert(prior_papers(match prior {
                        Some(p) => Some(*p),
                        None => None,
                    }) == prior_of(*transcript, k as int));
                    assert(papers_check_gives(*self, *my_count, prior_of(*transcript, k as int), CountIndex(k), Err(e)));
                    return Err(DifferenceBetweenOfficialDoPAndComputed::DifferentOnCount(CountIndex(k), copy_name(&my_count.count_name), e));
                },
                Ok(()) => {},
            }
        }
        proof {
            lemma_first_where_is_first(n as int, bad);
            if let Some(i) = first_where(n as int, bad) {
                assert(count_agrees(*self, *transcript, i));
            }
        }
        if self.counts.len() != transcript.counts.len() {
            return Err(DifferenceBetweenOfficialDoPAndComputed::DifferentNumbersOfCounts(self.counts.len(), transcript.counts.len()));
        }
        Ok(None)
    }
}

} // verus!
