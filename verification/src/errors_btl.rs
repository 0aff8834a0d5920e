//! Counting obvious errors in the numbering of below the line ballot papers: numbers repeated,
//! a number missing from an otherwise good sequence, and how far the numbering is good.

use vstd::prelude::*;
use crate::ballot_paper::RawBallotMarking;
use crate::ballot_pile::BallotPaperCount;

verus! {

/// The preference a marking gives, if it is a number from 1 to `max_allowed`.
pub open spec fn preference_of(m: RawBallotMarking, max_allowed: nat) -> Option<nat> {
    match m {
        RawBallotMarking::Number(n) => if 1 <= n && n <= max_allowed {
            Some(n as nat)
        } else {
            None
        },
        _ => None,
    }
}

impl RawBallotMarking {
    /// The preference this marking gives, if it is a number from 1 to `max_allowed`.
    pub fn as_preference(&self, max_allowed: usize) -> (res: Option<usize>)
        ensures
            match preference_of(*self, max_allowed as nat) {
                Some(n) => res == Some(n as usize),
                None => res is None,
            },
    {
        match self {
            RawBallotMarking::Number(n) => if *n >= 1 && (*n as usize) <= max_allowed {
                Some(*n as usize)
            } else {
                None
            },
            _ => None,
        }
    }
}

/// How many of the markings give preference `p`.
pub open spec fn times_given(markings: Seq<RawBallotMarking>, num_candidates: nat, p: nat) -> nat
    decreases markings.len(),
{
    if markings.len() == 0 {
        0
    } else {
        times_given(markings.drop_last(), num_candidates, p) + if preference_of(markings.last(), num_candidates) == Some(p) {
            1nat
        } else {
            0nat
        }
    }
}

/// How far the numbering is good, looking from `k`: the first `j` from `k` (at most the number of
/// candidates) such that preference `j + 1` is not given exactly once.
pub open spec fn good_length_from(markings: Seq<RawBallotMarking>, num_candidates: nat, k: nat) -> nat
    decreases num_candidates - k,
{
    if k < num_candidates && times_given(markings, num_candidates, k + 1) == 1 {
        good_length_from(markings, num_candidates, k + 1)
    } else {
        k
    }
}

/// How far the numbering is good: the largest `k` (at most the number of candidates) such that
/// each of 1 to `k` is given exactly once.
pub open spec fn good_length(markings: Seq<RawBallotMarking>, num_candidates: nat) -> nat {
    good_length_from(markings, num_candidates, 0)
}

/// Counts of obvious errors in the numbering of below the line ballot papers.
#[derive(Debug, Clone)]
pub struct ObviousErrorsInBTLVotes {
    /// repeated[i] is the number of repetitions of markings of i+1. That is, if one ballot paper
    /// contains 5 markings of a particular preference, then that counts as 4 repetitions.
    pub repeated: Vec<usize>,
    /// repeated_papers[i] is the number of ballot papers that have more than 1 marking of i+1.
    pub repeated_papers: Vec<BallotPaperCount>,
    /// missing[i] means that i+1 is missing, although i (unless 0) is present exactly once and
    /// i+2 is present exactly once.
    pub missing: Vec<BallotPaperCount>,
    /// ok_up_to[i] means that the numbers 1..i are all present exactly once, and i+1 is not
    /// present exactly once.
    pub ok_up_to: Vec<BallotPaperCount>,
}

/// The preference i+1 is missing from the paper, while i (unless i is 0) is there once, and so
/// is i+2 (unless i+1 is the last preference).
pub open spec fn missing_between(markings: Seq<RawBallotMarking>, num_candidates: nat, i: nat) -> bool {
    &&& times_given(markings, num_candidates, i + 1) == 0
    &&& (i == 0 || times_given(markings, num_candidates, i) == 1)
    &&& (i + 1 == num_candidates || times_given(markings, num_candidates, i + 2) == 1)
}

impl ObviousErrorsInBTLVotes {
    /// No papers counted yet, for an election with `num_candidates` candidates.
    pub fn new(num_candidates: usize) -> (res: Self)
        requires
            num_candidates < usize::MAX,
        ensures
            res.repeated@ == Seq::new(num_candidates as nat, |_i: int| 0usize),
            res.repeated_papers@ == Seq::new(num_candidates as nat, |_i: int| BallotPaperCount(0)),
            res.missing@ == Seq::new(num_candidates as nat, |_i: int| BallotPaperCount(0)),
            res.ok_up_to@ == Seq::new((num_candidates + 1) as nat, |_i: int| BallotPaperCount(0)),
    {
        ObviousErrorsInBTLVotes {
            repeated: crate::who_got_votes::copies(0usize, num_candidates),
            repeated_papers: crate::who_got_votes::copies(BallotPaperCount(0), num_candidates),
            missing: crate::who_got_votes::copies(BallotPaperCount(0), num_candidates),
            ok_up_to: crate::who_got_votes::copies(BallotPaperCount(0), num_candidates + 1),
        }
    }
}


/// A marking gives preference `p` no more often than there are markings.
proof fn lemma_times_given_bounded(markings: Seq<RawBallotMarking>, num_candidates: nat, p: nat)
    ensures
        times_given(markings, num_candidates, p) <= markings.len(),
    decreases markings.len(),
{
    if markings.len() > 0 {
        lemma_times_given_bounded(markings.drop_last(), num_candidates, p);
    }
}

/// The extra markings of a preference beyond the first.
pub open spec fn repeats(t: nat) -> nat {
    if t > 1 {
        (t - 1) as nat
    } else {
        0
    }
}

/// The count of the error counts in `e` for a paper is one more, or the same.
pub open spec fn one_if(b: bool) -> nat {
    if b {
        1
    } else {
        0
    }
}

/// The error counts have a place for each of the candidates.
pub open spec fn errors_wf(e: ObviousErrorsInBTLVotes) -> bool {
    let nc = e.repeated@.len();
    &&& e.repeated_papers@.len() == nc
    &&& e.missing@.len() == nc
    &&& e.ok_up_to@.len() == nc + 1
}

impl ObviousErrorsInBTLVotes {
    /// Count the errors on one more ballot paper, given its below the line markings.
    #[verifier::loop_isolation(false)]
    pub fn add_paper(&mut self, btl: &[RawBallotMarking])
        requires
            errors_wf(*old(self)),
            old(self).repeated@.len() >= 1,
            forall|i: int| 0 <= i < old(self).repeated@.len() ==> #[trigger] old(self).repeated@[i] + btl@.len() <= usize::MAX,
            forall|i: int| 0 <= i < old(self).repeated@.len() ==> (#[trigger] old(self).repeated_papers@[i]).0 < usize::MAX,
            forall|i: int| 0 <= i < old(self).repeated@.len() ==> (#[trigger] old(self).missing@[i]).0 < usize::MAX,
            forall|k: int| 0 <= k <= old(self).repeated@.len() ==> (#[trigger] old(self).ok_up_to@[k]).0 < usize::MAX,
        ensures
            errors_wf(*final(self)),
            final(self).repeated@.len() == old(self).repeated@.len(),
            forall|i: int| 0 <= i < final(self).repeated@.len() ==> #[trigger] final(self).repeated@[i] == old(self).repeated@[i] + repeats(
                times_given(btl@, old(self).repeated@.len(), (i + 1) as nat),
            ),
            forall|i: int| 0 <= i < final(self).repeated@.len() ==> (#[trigger] final(self).repeated_papers@[i]).0
                == old(self).repeated_papers@[i].0 + one_if(times_given(btl@, old(self).repeated@.len(), (i + 1) as nat) > 1),
            forall|i: int| 0 <= i < final(self).repeated@.len() ==> (#[trigger] final(self).missing@[i]).0 == old(self).missing@[i].0
                + one_if(missing_between(btl@, old(self).repeated@.len(), i as nat)),
            forall|k: int| 0 <= k <= final(self).repeated@.len() ==> (#[trigger] final(self).ok_up_to@[k]).0 == old(self).ok_up_to@[k].0
                + one_if(k == good_length(btl@, old(self).repeated@.len())),
    {
        let num_candidates = self.repeated.len();
        let ghost nc = num_candidates as nat;
        let ghost start = *self;
        let mut found = crate::who_got_votes::copies(0usize, num_candidates);
        for j in 0..btl.len()
            invariant
                found@.len() == num_candidates,
                self.repeated@.len() == num_candidates,
                self.missing == start.missing,
                self.ok_up_to == start.ok_up_to,
                self.repeated_papers@.len() == num_candidates,
                forall|i: int| 0 <= i < num_candidates ==> #[trigger] found@[i] == times_given(btl@.take(j as int), nc, (i + 1) as nat),
                forall|i: int| 0 <= i < num_candidates ==> #[trigger] self.repeated@[i] == start.repeated@[i] + repeats(found@[i] as nat),
                forall|i: int| 0 <= i < num_candidates ==> (#[trigger] self.repeated_papers@[i]).0 == start.repeated_papers@[i].0 + one_if(
                    found@[i] > 1,
                ),
        {
            assert(btl@.take(j + 1).drop_last() =~= btl@.take(j as int));
            if let Some(n) = btl[j].as_preference(num_candidates) {
                let n = n - 1;
                proof {
                    lemma_times_given_bounded(btl@.take(j as int), nc, (n + 1) as nat);
                }
                found.set(n, found[n] + 1);
                if found[n] > 1 {
                    self.repeated.set(n, self.repeated[n] + 1);
                    if found[n] == 2 {
                        let r = self.repeated_papers[n].0;
                        self.repeated_papers.set(n, BallotPaperCount(r + 1));
                    }
                }
            }
            assert forall|i: int| 0 <= i < num_candidates implies #[trigger] found@[i] == times_given(btl@.take(j + 1), nc, (i + 1) as nat) by {
                assert(btl@.take(j + 1).last() == btl@[j as int]);
            }
        }
        assert(btl@.take(btl@.len() as int) =~= btl@);
        let ghost after_first = *self;
        for i in 0..num_candidates
            invariant
                self.repeated == after_first.repeated,
                self.repeated_papers == after_first.repeated_papers,
                self.ok_up_to == start.ok_up_to,
                found@.len() == num_candidates,
                self.missing@.len() == num_candidates,
                forall|q: int| 0 <= q < num_candidates ==> #[trigger] found@[q] == times_given(btl@, nc, (q + 1) as nat),
                forall|q: int| 0 <= q < num_candidates ==> (#[trigger] self.missing@[q]).0 == start.missing@[q].0 + one_if(
                    q < i && missing_between(btl@, nc, q as nat),
                ),
        {
            if found[i] == 0 && (i == 0 || found[i - 1] == 1) && (i + 1 == num_candidates || found[i + 1] == 1) {
                let m = self.missing[i].0;
                self.missing.set(i, BallotPaperCount(m + 1));
            }
        }
        let mut ok_up_to: usize = 0;
        while ok_up_to < num_candidates && found[ok_up_to] == 1
            invariant
                ok_up_to <= num_candidates,
                found@.len() == num_candidates,
                forall|q: int| 0 <= q < num_candidates ==> #[trigger] found@[q] == times_given(btl@, nc, (q + 1) as nat),
                good_length(btl@, nc) == good_length_from(btl@, nc, ok_up_to as nat),
            decreases num_candidates - ok_up_to,
        {
            ok_up_to = ok_up_to + 1;
        }
        let c = self.ok_up_to[ok_up_to].0;
        self.ok_up_to.set(ok_up_to, BallotPaperCount(c + 1));
    }
}


/// How many markings the papers hold in all.
pub open spec fn total_markings(papers: Seq<Vec<RawBallotMarking>>) -> nat
    decreases papers.len(),
{
    if papers.len() == 0 {
        0
    } else {
        total_markings(papers.drop_last()) + papers.last()@.len()
    }
}

/// Over all the papers, the extra markings of preference `p` beyond the first on each paper.
pub open spec fn total_repeats(papers: Seq<Vec<RawBallotMarking>>, num_candidates: nat, p: nat) -> nat
    decreases papers.len(),
{
    if papers.len() == 0 {
        0
    } else {
        total_repeats(papers.drop_last(), num_candidates, p) + repeats(times_given(papers.last()@, num_candidates, p))
    }
}

/// How many of the papers give preference `p` more than once.
pub open spec fn total_repeated_papers(papers: Seq<Vec<RawBallotMarking>>, num_candidates: nat, p: nat) -> nat
    decreases papers.len(),
{
    if papers.len() == 0 {
        0
    } else {
        total_repeated_papers(papers.drop_last(), num_candidates, p) + one_if(times_given(papers.last()@, num_candidates, p) > 1)
    }
}

/// How many of the papers miss preference `i + 1` between two preferences each given once.
pub open spec fn total_missing(papers: Seq<Vec<RawBallotMarking>>, num_candidates: nat, i: nat) -> nat
    decreases papers.len(),
{
    if papers.len() == 0 {
        0
    } else {
        total_missing(papers.drop_last(), num_candidates, i) + one_if(missing_between(papers.last()@, num_candidates, i))
    }
}

/// How many of the papers are numbered well exactly up to `k`.
pub open spec fn total_good_up_to(papers: Seq<Vec<RawBallotMarking>>, num_candidates: nat, k: nat) -> nat
    decreases papers.len(),
{
    if papers.len() == 0 {
        0
    } else {
        total_good_up_to(papers.drop_last(), num_candidates, k) + one_if(k == good_length(papers.last()@, num_candidates))
    }
}

/// The totals are bounded by the number of markings or of papers.
proof fn lemma_totals_bounded(papers: Seq<Vec<RawBallotMarking>>, num_candidates: nat, p: nat)
    ensures
        total_repeats(papers, num_candidates, p) <= total_markings(papers),
        total_repeated_papers(papers, num_candidates, p) <= papers.len(),
        total_missing(papers, num_candidates, p) <= papers.len(),
        total_good_up_to(papers, num_candidates, p) <= papers.len(),
    decreases papers.len(),
{
    if papers.len() > 0 {
        lemma_totals_bounded(papers.drop_last(), num_candidates, p);
        lemma_times_given_bounded(papers.last()@, num_candidates, p);
    }
}

/// The markings of the first `j` papers are no more than those of all of them.
proof fn lemma_total_markings_prefix(papers: Seq<Vec<RawBallotMarking>>, j: int)
    requires
        0 <= j <= papers.len(),
    ensures
        total_markings(papers.take(j)) <= total_markings(papers),
    decreases papers.len(),
{
    if j == papers.len() {
        assert(papers.take(j) =~= papers);
    } else {
        assert(papers.drop_last().take(j) =~= papers.take(j));
        lemma_total_markings_prefix(papers.drop_last(), j);
    }
}

impl ObviousErrorsInBTLVotes {
    /// Count the obvious errors over all the given papers, each given by its below the line
    /// markings, in an election with `num_candidates` candidates.
    pub fn compute(num_candidates: usize, papers: &Vec<Vec<RawBallotMarking>>) -> (res: Self)
        requires
            1 <= num_candidates < usize::MAX,
            total_markings(papers@) <= usize::MAX,
        ensures
            errors_wf(res),
            res.repeated@.len() == num_candidates,
            forall|i: int| 0 <= i < num_candidates ==> #[trigger] res.repeated@[i] == total_repeats(papers@, num_candidates as nat, (i + 1) as nat),
            forall|i: int| 0 <= i < num_candidates ==> (#[trigger] res.repeated_papers@[i]).0 == total_repeated_papers(
                papers@,
                num_candidates as nat,
                (i + 1) as nat,
            ),
            forall|i: int| 0 <= i < num_candidates ==> (#[trigger] res.missing@[i]).0 == total_missing(papers@, num_candidates as nat, i as nat),
            forall|k: int| 0 <= k <= num_candidates ==> (#[trigger] res.ok_up_to@[k]).0 == total_good_up_to(papers@, num_candidates as nat, k as nat),
    {
        let ghost nc = num_candidates as nat;
        let mut res = ObviousErrorsInBTLVotes::new(num_candidates);
        let mut j: usize = 0;
        while j < papers.len()
            invariant
                j <= papers.len(),
                1 <= num_candidates < usize::MAX,
                nc == num_candidates,
                total_markings(papers@) <= usize::MAX,
                errors_wf(res),
                res.repeated@.len() == num_candidates,
                forall|i: int| 0 <= i < num_candidates ==> #[trigger] res.repeated@[i] == total_repeats(papers@.take(j as int), nc, (i + 1) as nat),
                forall|i: int| 0 <= i < num_candidates ==> (#[trigger] res.repeated_papers@[i]).0 == total_repeated_papers(
                    papers@.take(j as int),
                    nc,
                    (i + 1) as nat,
                ),
                forall|i: int| 0 <= i < num_candidates ==> (#[trigger] res.missing@[i]).0 == total_missing(papers@.take(j as int), nc, i as nat),
                forall|k: int| 0 <= k <= num_candidates ==> (#[trigger] res.ok_up_to@[k]).0 == total_good_up_to(papers@.take(j as int), nc, k as nat),
            decreases papers.len() - j,
        {
            let ghost before = papers@.take(j as int);
            let ghost after = papers@.take(j + 1);
            proof {
                assert(after.drop_last() =~= before);
                assert(after.last() == papers@[j as int]);
                lemma_total_markings_prefix(papers@, j + 1);
                assert forall|i: int| 0 <= i < num_candidates implies #[trigger] res.repeated@[i] + papers@[j as int]@.len() <= usize::MAX by {
                    lemma_totals_bounded(before, nc, (i + 1) as nat);
                }
                assert forall|i: int| 0 <= i < num_candidates implies (#[trigger] res.repeated_papers@[i]).0 < usize::MAX by {
                    lemma_totals_bounded(before, nc, (i + 1) as nat);
                }
                assert forall|i: int| 0 <= i < num_candidates implies (#[trigger] res.missing@[i]).0 < usize::MAX by {
                    lemma_totals_bounded(before, nc, i as nat);
                }
                assert forall|k: int| 0 <= k <= num_candidates implies (#[trigger] res.ok_up_to@[k]).0 < usize::MAX by {
                    lemma_totals_bounded(before, nc, k as nat);
                }
            }
            res.add_paper(papers[j].as_slice());
            j = j + 1;
        }
        assert(papers@.take(papers@.len() as int) =~= papers@);
        res
    }
}

} // verus!
