//! How many votes each candidate and party got first, or mentioned at all, above and below the line.

use vstd::prelude::*;
use crate::ballot_metadata::{CandidateIndex, Candidate, PartyIndex};
use crate::ballot_paper::{party_candidates, parties_known};
use crate::ballot_pile::{BallotPaperCount, PartiallyDistributedVote};
use crate::election_data::{ElectionData, positions_in, restricted, span};

verus! {

/// A vote as plain values: how many voters, their preferences, and whether they voted above the line.
pub type VoteInfo = (nat, Seq<CandidateIndex>, bool);

/// A vote, not yet distributed, as plain values.
pub open spec fn vote_info<'a>(v: PartiallyDistributedVote<'a>) -> VoteInfo {
    (v.n.0 as nat, v.prefs@, v.source is Atl)
}

/// Every vote of an election as plain values: the ATL votes, resolved to the candidates of the
/// parties voted for, then the BTL votes.
pub open spec fn election_votes(data: ElectionData) -> Seq<VoteInfo> {
    data.atl@.map_values(|a: crate::ballot_paper::ATL| (a.n as nat, party_candidates(a.parties@, data.metadata.parties@), true))
        + data.btl@.map_values(|b: crate::ballot_paper::BTL| (b.n as nat, b.candidates@, false))
}

/// Every party and candidate an election's votes and candidates name is one of its own.
pub open spec fn election_consistent(data: ElectionData) -> bool {
    let nc = data.metadata.candidates@.len();
    let np = data.metadata.parties@.len();
    &&& forall|i: int| 0 <= i < data.atl@.len() ==> parties_known(#[trigger] data.atl@[i].parties@, np)
    &&& forall|p: int, k: int|
        0 <= p < np && 0 <= k < data.metadata.parties@[p].candidates@.len() ==> (#[trigger] data.metadata.parties@[p].candidates@[k]).0
            < nc
    &&& forall|i: int, k: int|
        0 <= i < data.btl@.len() && 0 <= k < data.btl@[i].candidates@.len() ==> (#[trigger] data.btl@[i].candidates@[k]).0 < nc
    &&& forall|c: int| 0 <= c < nc ==> ((#[trigger] data.metadata.candidates@[c]).party matches Some(p) ==> p.0 < np)
}

/// The sum over the votes of the weight each is given.
pub open spec fn weighted(votes: Seq<VoteInfo>, w: spec_fn(VoteInfo) -> nat) -> nat
    decreases votes.len(),
{
    if votes.len() == 0 {
        0
    } else {
        weighted(votes.drop_last(), w) + w(votes.last())
    }
}

/// How many times a candidate occurs in a list of preferences.
pub open spec fn occurrences(prefs: Seq<CandidateIndex>, c: CandidateIndex) -> nat
    decreases prefs.len(),
{
    if prefs.len() == 0 {
        0
    } else {
        occurrences(prefs.drop_last(), c) + if prefs.last() == c {
            1nat
        } else {
            0nat
        }
    }
}

/// The party of a candidate.
pub open spec fn party_of(candidates: Seq<Candidate>, c: CandidateIndex) -> Option<PartyIndex> {
    candidates[c.0 as int].party
}

/// Some candidate of the party is in the preferences.
pub open spec fn mentions_party(candidates: Seq<Candidate>, prefs: Seq<CandidateIndex>, p: PartyIndex) -> bool {
    exists|k: int| 0 <= k < prefs.len() && party_of(candidates, #[trigger] prefs[k]) == Some(p)
}

/// The voters of a vote on the given side of the line whose first preference is `c`.
pub open spec fn first_weight(c: CandidateIndex, atl: bool) -> spec_fn(VoteInfo) -> nat {
    |v: VoteInfo| if v.2 == atl && v.1.len() > 0 && v.1[0] == c {
        v.0
    } else {
        0
    }
}

/// The voters of a vote on the given side of the line, once for each time it mentions `c`.
pub open spec fn mention_weight(c: CandidateIndex, atl: bool) -> spec_fn(VoteInfo) -> nat {
    |v: VoteInfo| if v.2 == atl {
        v.0 * occurrences(v.1, c)
    } else {
        0
    }
}

/// The voters of a vote on the given side of the line whose first preference is a candidate of party `p`.
pub open spec fn party_first_weight(candidates: Seq<Candidate>, p: PartyIndex, atl: bool) -> spec_fn(VoteInfo) -> nat {
    |v: VoteInfo| if v.2 == atl && v.1.len() > 0 && party_of(candidates, v.1[0]) == Some(p) {
        v.0
    } else {
        0
    }
}

/// The voters of a vote on the given side of the line that mentions a candidate of party `p`.
pub open spec fn party_mention_weight(candidates: Seq<Candidate>, p: PartyIndex, atl: bool) -> spec_fn(VoteInfo) -> nat {
    |v: VoteInfo| if v.2 == atl && mentions_party(candidates, v.1, p) {
        v.0
    } else {
        0
    }
}

/// Every count of the `nc` candidates and `np` parties fits in a usize.
pub open spec fn counts_fit(votes: Seq<VoteInfo>, candidates: Seq<Candidate>, np: nat) -> bool {
    &&& forall|c: int, atl: bool|
        0 <= c < candidates.len() ==> #[trigger] weighted(votes, first_weight(CandidateIndex(c as usize), atl)) <= usize::MAX
    &&& forall|c: int, atl: bool|
        0 <= c < candidates.len() ==> #[trigger] weighted(votes, mention_weight(CandidateIndex(c as usize), atl)) <= usize::MAX
    &&& forall|p: int, atl: bool|
        0 <= p < np ==> #[trigger] weighted(votes, party_first_weight(candidates, PartyIndex(p as usize), atl)) <= usize::MAX
    &&& forall|p: int, atl: bool|
        0 <= p < np ==> #[trigger] weighted(votes, party_mention_weight(candidates, PartyIndex(p as usize), atl)) <= usize::MAX
}

/// The number of votes that mention a party or candidate first, or at all, by ATL or by BTL.
#[derive(Debug, Clone, Copy)]
pub struct NumVotesReceived {
    pub first_atl: BallotPaperCount,
    pub first_btl: BallotPaperCount,
    pub mention_atl: BallotPaperCount,
    pub mention_btl: BallotPaperCount,
}

impl NumVotesReceived {
    /// No votes.
    pub fn zero() -> (res: Self)
        ensures
            res.first_atl.0 == 0 && res.first_btl.0 == 0 && res.mention_atl.0 == 0 && res.mention_btl.0 == 0,
    {
        NumVotesReceived {
            first_atl: BallotPaperCount(0),
            first_btl: BallotPaperCount(0),
            mention_atl: BallotPaperCount(0),
            mention_btl: BallotPaperCount(0),
        }
    }
}

/// The votes each candidate and party got.
#[derive(Debug, Clone)]
pub struct WhoGotVotes {
    pub candidates: Vec<NumVotesReceived>,
    pub parties: Vec<NumVotesReceived>,
}


/// The first-preference count of one side of the line.
pub open spec fn first_of(r: NumVotesReceived, atl: bool) -> nat {
    if atl {
        r.first_atl.0 as nat
    } else {
        r.first_btl.0 as nat
    }
}

/// The mention count of one side of the line.
pub open spec fn mention_of(r: NumVotesReceived, atl: bool) -> nat {
    if atl {
        r.mention_atl.0 as nat
    } else {
        r.mention_btl.0 as nat
    }
}

/// The first-preference counts of each candidate are those of the votes.
pub open spec fn first_counts(cs: Seq<NumVotesReceived>, votes: Seq<VoteInfo>) -> bool {
    forall|c: int, atl: bool|
        0 <= c < cs.len() ==> #[trigger] first_of(cs[c], atl) == weighted(votes, first_weight(CandidateIndex(c as usize), atl))
}

/// The mention counts of each candidate are those of the votes.
pub open spec fn mention_counts(cs: Seq<NumVotesReceived>, votes: Seq<VoteInfo>) -> bool {
    forall|c: int, atl: bool|
        0 <= c < cs.len() ==> #[trigger] mention_of(cs[c], atl) == weighted(votes, mention_weight(CandidateIndex(c as usize), atl))
}

/// The first-preference counts of each party are those of the votes.
pub open spec fn party_first_counts(ps: Seq<NumVotesReceived>, votes: Seq<VoteInfo>, candidates: Seq<Candidate>) -> bool {
    forall|p: int, atl: bool|
        0 <= p < ps.len() ==> #[trigger] first_of(ps[p], atl) == weighted(
            votes,
            party_first_weight(candidates, PartyIndex(p as usize), atl),
        )
}

/// The mention counts of each party are those of the votes.
pub open spec fn party_mention_counts(ps: Seq<NumVotesReceived>, votes: Seq<VoteInfo>, candidates: Seq<Candidate>) -> bool {
    forall|p: int, atl: bool|
        0 <= p < ps.len() ==> #[trigger] mention_of(ps[p], atl) == weighted(
            votes,
            party_mention_weight(candidates, PartyIndex(p as usize), atl),
        )
}

/// The counts of each candidate are those of the votes.
pub open spec fn candidate_counts(cs: Seq<NumVotesReceived>, votes: Seq<VoteInfo>) -> bool {
    first_counts(cs, votes) && mention_counts(cs, votes)
}

/// The counts of each party are those of the votes.
pub open spec fn party_counts(ps: Seq<NumVotesReceived>, votes: Seq<VoteInfo>, candidates: Seq<Candidate>) -> bool {
    party_first_counts(ps, votes, candidates) && party_mention_counts(ps, votes, candidates)
}

/// The mention counts are unchanged.
pub open spec fn same_mentions(a: Seq<NumVotesReceived>, b: Seq<NumVotesReceived>) -> bool {
    a.len() == b.len() && forall|c: int, atl: bool| 0 <= c < a.len() ==> #[trigger] mention_of(a[c], atl) == mention_of(b[c], atl)
}

/// The first-preference counts are unchanged.
pub open spec fn same_firsts(a: Seq<NumVotesReceived>, b: Seq<NumVotesReceived>) -> bool {
    a.len() == b.len() && forall|c: int, atl: bool| 0 <= c < a.len() ==> #[trigger] first_of(a[c], atl) == first_of(b[c], atl)
}

/// Adding one more vote adds its weight.
pub(crate) proof fn lemma_weighted_push(votes: Seq<VoteInfo>, v: VoteInfo, w: spec_fn(VoteInfo) -> nat)
    ensures
        weighted(votes.push(v), w) == weighted(votes, w) + w(v),
{
    assert(votes.push(v).drop_last() =~= votes);
}

/// A prefix weighs no more than the whole.
pub(crate) proof fn lemma_weighted_prefix(votes: Seq<VoteInfo>, i: int, w: spec_fn(VoteInfo) -> nat)
    requires
        0 <= i <= votes.len(),
    ensures
        weighted(votes.take(i), w) <= weighted(votes, w),
    decreases votes.len() - i,
{
    if i < votes.len() {
        lemma_weighted_prefix(votes, i + 1, w);
        assert(votes.take(i + 1).drop_last() =~= votes.take(i));
    } else {
        assert(votes.take(i) =~= votes);
    }
}

/// A candidate occurs no more often than there are preferences, and a prefix holds no more
/// occurrences than the whole.
proof fn lemma_occurrences(prefs: Seq<CandidateIndex>, j: int, c: CandidateIndex)
    requires
        0 <= j <= prefs.len(),
    ensures
        occurrences(prefs.take(j), c) <= occurrences(prefs, c) <= prefs.len(),
    decreases prefs.len() - j,
{
    if j < prefs.len() {
        lemma_occurrences(prefs, j + 1, c);
        assert(prefs.take(j + 1).drop_last() =~= prefs.take(j));
    } else {
        assert(prefs.take(j) =~= prefs);
        lemma_occurrences_len(prefs, c);
    }
}

/// A candidate occurs no more often than there are preferences.
proof fn lemma_occurrences_len(prefs: Seq<CandidateIndex>, c: CandidateIndex)
    ensures
        occurrences(prefs, c) <= prefs.len(),
    decreases prefs.len(),
{
    if prefs.len() > 0 {
        lemma_occurrences_len(prefs.drop_last(), c);
    }
}

/// The votes `resolve_atl` gives, taking every vote, are those of the election.
pub(crate) proof fn lemma_resolved_votes<'a>(data: ElectionData, resolved: Seq<Vec<CandidateIndex>>, votes: Seq<PartiallyDistributedVote<'a>>)
    requires
        resolved.len() == data.atl@.len(),
        forall|p: int| 0 <= p < resolved.len() ==> (#[trigger] resolved[p])@ == party_candidates(data.atl@[p].parties@, data.metadata.parties@),
        ({
            let pa = positions_in(restricted(None, data.atl_types@, data.atl.len()));
            let pb = positions_in(restricted(None, data.btl_types@, data.btl.len()));
            &&& votes.len() == pa.len() + pb.len()
            &&& forall|k: int| 0 <= k < pa.len() ==> crate::election_data::atl_vote(data.atl@, pa[k], resolved[pa[k]]@, #[trigger] votes[k])
            &&& forall|k: int| pa.len() <= k < votes.len() ==> crate::election_data::btl_vote(data.btl@, pb[k - pa.len()], #[trigger] votes[k])
        }),
    ensures
        votes.map_values(|v: PartiallyDistributedVote<'a>| vote_info(v)) == election_votes(data),
{
    let pa = positions_in(restricted(None, data.atl_types@, data.atl.len()));
    let pb = positions_in(restricted(None, data.btl_types@, data.btl.len()));
    let ra = seq![(0usize, data.atl.len())];
    let rb = seq![(0usize, data.btl.len())];
    assert(ra.drop_last() =~= Seq::<(usize, usize)>::empty());
    assert(rb.drop_last() =~= Seq::<(usize, usize)>::empty());
    assert(restricted(None, data.atl_types@, data.atl.len()) == ra);
    assert(restricted(None, data.btl_types@, data.btl.len()) == rb);
    assert(positions_in(ra) == positions_in(ra.drop_last()) + span(0, data.atl@.len() as int));
    assert(positions_in(rb) == positions_in(rb.drop_last()) + span(0, data.btl@.len() as int));
    assert(positions_in(Seq::<(usize, usize)>::empty()) == Seq::<int>::empty());
    assert(pa =~= span(0, data.atl@.len() as int));
    assert(pb =~= span(0, data.btl@.len() as int));
    let ev = election_votes(data);
    assert forall|k: int| 0 <= k < votes.len() implies vote_info(#[trigger] votes[k]) == ev[k] by {
        if k < pa.len() {
            assert(pa[k] == k);
        } else {
            assert(pb[k - pa.len()] == k - pa.len());
        }
    }
    assert(votes.map_values(|v: PartiallyDistributedVote<'a>| vote_info(v)) =~= ev);
}


/// The counts with some voters added to the first preferences of one side of the line.
fn add_first(r: NumVotesReceived, atl: bool, n: usize) -> (res: NumVotesReceived)
    requires
        first_of(r, atl) + n <= usize::MAX,
    ensures
        first_of(res, atl) == first_of(r, atl) + n,
        first_of(res, !atl) == first_of(r, !atl),
        mention_of(res, true) == mention_of(r, true),
        mention_of(res, false) == mention_of(r, false),
{
    let mut res = r;
    if atl {
        res.first_atl = BallotPaperCount(r.first_atl.0 + n);
    } else {
        res.first_btl = BallotPaperCount(r.first_btl.0 + n);
    }
    res
}

/// The counts with some voters added to the mentions of one side of the line.
fn add_mention(r: NumVotesReceived, atl: bool, n: usize) -> (res: NumVotesReceived)
    requires
        mention_of(r, atl) + n <= usize::MAX,
    ensures
        mention_of(res, atl) == mention_of(r, atl) + n,
        mention_of(res, !atl) == mention_of(r, !atl),
        first_of(res, true) == first_of(r, true),
        first_of(res, false) == first_of(r, false),
{
    let mut res = r;
    if atl {
        res.mention_atl = BallotPaperCount(r.mention_atl.0 + n);
    } else {
        res.mention_btl = BallotPaperCount(r.mention_btl.0 + n);
    }
    res
}

/// Every candidate named is one of the `nc` candidates, and every candidate's party one of the `np` parties.
pub open spec fn names_known(prefs: Seq<CandidateIndex>, candidates: Seq<Candidate>, np: nat) -> bool {
    &&& forall|k: int| 0 <= k < prefs.len() ==> (#[trigger] prefs[k]).0 < candidates.len()
    &&& forall|c: int| 0 <= c < candidates.len() ==> ((#[trigger] candidates[c]).party matches Some(p) ==> p.0 < np)
}

/// Counts that fit for all the votes fit for a prefix of them.
proof fn lemma_counts_fit_prefix(votes: Seq<VoteInfo>, i: int, candidates: Seq<Candidate>, np: nat)
    requires
        0 <= i <= votes.len(),
        counts_fit(votes, candidates, np),
    ensures
        counts_fit(votes.take(i), candidates, np),
{
    assert forall|c: int, atl: bool| 0 <= c < candidates.len() implies #[trigger] weighted(votes.take(i), first_weight(CandidateIndex(c as usize), atl)) <= usize::MAX by {
        lemma_weighted_prefix(votes, i, first_weight(CandidateIndex(c as usize), atl));
    }
    assert forall|c: int, atl: bool| 0 <= c < candidates.len() implies #[trigger] weighted(votes.take(i), mention_weight(CandidateIndex(c as usize), atl)) <= usize::MAX by {
        lemma_weighted_prefix(votes, i, mention_weight(CandidateIndex(c as usize), atl));
    }
    assert forall|p: int, atl: bool| 0 <= p < np implies #[trigger] weighted(votes.take(i), party_first_weight(candidates, PartyIndex(p as usize), atl)) <= usize::MAX by {
        lemma_weighted_prefix(votes, i, party_first_weight(candidates, PartyIndex(p as usize), atl));
    }
    assert forall|p: int, atl: bool| 0 <= p < np implies #[trigger] weighted(votes.take(i), party_mention_weight(candidates, PartyIndex(p as usize), atl)) <= usize::MAX by {
        lemma_weighted_prefix(votes, i, party_mention_weight(candidates, PartyIndex(p as usize), atl));
    }
}

impl WhoGotVotes {
    /// Count the first preference of one more vote: `n` voters, with preferences `prefs`, above
    /// the line if `atl`.
    fn count_first(
        &mut self,
        n: usize,
        prefs: &[CandidateIndex],
        atl: bool,
        candidates: &Vec<Candidate>,
        Ghost(done): Ghost<Seq<VoteInfo>>,
    )
        requires
            first_counts(old(self).candidates@, done),
            party_first_counts(old(self).parties@, done, candidates@),
            old(self).candidates@.len() == candidates@.len(),
            names_known(prefs@, candidates@, old(self).parties@.len() as nat),
            counts_fit(done.push((n as nat, prefs@, atl)), candidates@, old(self).parties@.len() as nat),
        ensures
            first_counts(final(self).candidates@, done.push((n as nat, prefs@, atl))),
            party_first_counts(final(self).parties@, done.push((n as nat, prefs@, atl)), candidates@),
            same_mentions(final(self).candidates@, old(self).candidates@),
            same_mentions(final(self).parties@, old(self).parties@),
    {
        let ghost v: VoteInfo = (n as nat, prefs@, atl);
        let ghost all = done.push(v);
        let ghost cs0 = self.candidates@;
        let ghost ps0 = self.parties@;
        let num_candidates = self.candidates.len();
        let num_parties = self.parties.len();
        if prefs.len() > 0 {
            let first = prefs[0];
            assert(first_weight(first, atl)(v) == n);
            proof {
                lemma_weighted_push(done, v, first_weight(first, atl));
                assert(CandidateIndex(first.0 as usize) == first);
                assert(weighted(all, first_weight(CandidateIndex(first.0 as usize), atl)) <= usize::MAX);
            }
            assert(first_of(self.candidates@[first.0 as int], atl) == weighted(done, first_weight(first, atl)));
            let r = add_first(self.candidates[first.0], atl, n);
            self.candidates.set(first.0, r);
            if let Some(party) = candidates[first.0].party {
                assert(party_first_weight(candidates@, party, atl)(v) == n);
                proof {
                    lemma_weighted_push(done, v, party_first_weight(candidates@, party, atl));
                    assert(PartyIndex(party.0 as usize) == party);
                    assert(weighted(all, party_first_weight(candidates@, PartyIndex(party.0 as usize), atl)) <= usize::MAX);
                }
                assert(first_of(self.parties@[party.0 as int], atl) == weighted(done, party_first_weight(candidates@, party, atl)));
                let q = add_first(self.parties[party.0], atl, n);
                self.parties.set(party.0, q);
            }
        }
        assert forall|c: int, a: bool| 0 <= c < self.candidates@.len() implies #[trigger] first_of(self.candidates@[c], a) == weighted(
            all,
            first_weight(CandidateIndex(c as usize), a),
        ) by {
            let cc = CandidateIndex(c as usize);
            lemma_weighted_push(done, v, first_weight(cc, a));
            assert(first_of(cs0[c], a) == weighted(done, first_weight(cc, a)));
            assert(cc.0 as int == c);
            if prefs@.len() > 0 && c == prefs@[0].0 {
                assert(cc == prefs@[0]);
            } else if prefs@.len() > 0 {
                assert(cc.0 != prefs@[0].0);
                assert(cc != prefs@[0]);
            }
        }
        assert forall|p: int, a: bool| 0 <= p < self.parties@.len() implies #[trigger] first_of(self.parties@[p], a) == weighted(
            all,
            party_first_weight(candidates@, PartyIndex(p as usize), a),
        ) by {
            let pp = PartyIndex(p as usize);
            assert(pp.0 as int == p);
            lemma_weighted_push(done, v, party_first_weight(candidates@, pp, a));
            assert(first_of(ps0[p], a) == weighted(done, party_first_weight(candidates@, pp, a)));
            if prefs@.len() > 0 {
                let pf = candidates@[prefs@[0].0 as int].party;
                if pf == Some(pp) {
                    assert(party_of(candidates@, prefs@[0]) == Some(pp));
                } else {
                    assert(party_of(candidates@, prefs@[0]) != Some(pp));
                    if let Some(q) = pf {
                        assert(q.0 != p);
                    }
                }
            }
        }
    }

    /// Count the mentions of one more vote, the `index`th: `n` voters, with preferences `prefs`,
    /// above the line if `atl`. `seen` holds, for each party, the last vote that mentioned it.
    #[verifier::loop_isolation(false)]
    #[verifier::rlimit(40)]
    fn count_mentions(
        &mut self,
        seen: &mut Vec<usize>,
        index: usize,
        n: usize,
        prefs: &[CandidateIndex],
        atl: bool,
        candidates: &Vec<Candidate>,
        Ghost(done): Ghost<Seq<VoteInfo>>,
    )
        requires
            mention_counts(old(self).candidates@, done),
            party_mention_counts(old(self).parties@, done, candidates@),
            old(self).candidates@.len() == candidates@.len(),
            old(seen)@.len() == old(self).parties@.len(),
            forall|p: int| 0 <= p < old(seen)@.len() ==> #[trigger] old(seen)@[p] != index,
            names_known(prefs@, candidates@, old(self).parties@.len() as nat),
            counts_fit(done.push((n as nat, prefs@, atl)), candidates@, old(self).parties@.len() as nat),
        ensures
            mention_counts(final(self).candidates@, done.push((n as nat, prefs@, atl))),
            party_mention_counts(final(self).parties@, done.push((n as nat, prefs@, atl)), candidates@),
            same_firsts(final(self).candidates@, old(self).candidates@),
            same_firsts(final(self).parties@, old(self).parties@),
            final(seen)@.len() == old(seen)@.len(),
            forall|p: int| 0 <= p < final(seen)@.len() ==> #[trigger] final(seen)@[p] == old(seen)@[p] || final(seen)@[p] == index,
    {
        let ghost v: VoteInfo = (n as nat, prefs@, atl);
        let ghost all = done.push(v);
        let ghost cs0 = self.candidates@;
        let ghost ps0 = self.parties@;
        let num_candidates = self.candidates.len();
        let num_parties = self.parties.len();
        assert forall|c: int, a: bool| 0 <= c < self.candidates@.len() implies #[trigger] mention_of(self.candidates@[c], a) == weighted(
            done,
            mention_weight(CandidateIndex(c as usize), a),
        ) + if a == atl {
            n * occurrences(prefs@.take(0), CandidateIndex(c as usize))
        } else {
            0
        } by {
            assert(occurrences(prefs@.take(0), CandidateIndex(c as usize)) == 0);
            assert(n * 0 == 0) by (nonlinear_arith);
        }
        let ghost seen0 = seen@;
        for j in 0..prefs.len()
            invariant
                self.candidates@.len() == cs0.len(),
                self.parties@.len() == ps0.len(),
                seen@.len() == seen0.len(),
                same_firsts(self.candidates@, cs0),
                same_firsts(self.parties@, ps0),
                forall|c: int, a: bool| 0 <= c < self.candidates@.len() ==> #[trigger] mention_of(self.candidates@[c], a) == weighted(
                    done,
                    mention_weight(CandidateIndex(c as usize), a),
                ) + if a == atl {
                    n * occurrences(prefs@.take(j as int), CandidateIndex(c as usize))
                } else {
                    0
                },
                forall|p: int, a: bool| 0 <= p < self.parties@.len() ==> #[trigger] mention_of(self.parties@[p], a) == weighted(
                    done,
                    party_mention_weight(candidates@, PartyIndex(p as usize), a),
                ) + if a == atl && mentions_party(candidates@, prefs@.take(j as int), PartyIndex(p as usize)) {
                    n
                } else {
                    0
                },
                forall|p: int| 0 <= p < seen@.len() ==> (#[trigger] seen@[p] == index) == mentions_party(
                    candidates@,
                    prefs@.take(j as int),
                    PartyIndex(p as usize),
                ),
                forall|p: int| 0 <= p < seen@.len() ==> #[trigger] seen@[p] == seen0[p] || seen@[p] == index,
        {
            let candidate = prefs[j];
            assert(prefs@.take(j + 1).drop_last() =~= prefs@.take(j as int));
            proof {
                lemma_occurrences(prefs@, j + 1, candidate);
                lemma_weighted_push(done, v, mention_weight(candidate, atl));
                assert(CandidateIndex(candidate.0 as usize) == candidate);
                assert(weighted(all, mention_weight(CandidateIndex(candidate.0 as usize), atl)) <= usize::MAX);
                let o = occurrences(prefs@.take(j as int), candidate);
                assert(n * (o + 1) == n * o + n) by (nonlinear_arith);
                assert(n * (o + 1) <= n * occurrences(prefs@, candidate)) by (nonlinear_arith)
                    requires
                        o + 1 <= occurrences(prefs@, candidate),
                ;
                assert(mention_weight(candidate, atl)(v) == n * occurrences(prefs@, candidate));
            }
            let ghost cs1 = self.candidates@;
            let r = add_mention(self.candidates[candidate.0], atl, n);
            self.candidates.set(candidate.0, r);
            assert forall|c: int, a: bool| 0 <= c < self.candidates@.len() implies #[trigger] mention_of(self.candidates@[c], a) == weighted(
                done,
                mention_weight(CandidateIndex(c as usize), a),
            ) + if a == atl {
                n * occurrences(prefs@.take(j + 1), CandidateIndex(c as usize))
            } else {
                0
            } by {
                assert(mention_of(cs1[c], a) == weighted(done, mention_weight(CandidateIndex(c as usize), a)) + if a == atl {
                    n * occurrences(prefs@.take(j as int), CandidateIndex(c as usize))
                } else {
                    0
                });
                let o = occurrences(prefs@.take(j as int), CandidateIndex(c as usize));
                assert(n * (o + 1) == n * o + n) by (nonlinear_arith);
            }
            assert(same_firsts(self.candidates@, cs0)) by {
                assert forall|c: int, a: bool| 0 <= c < self.candidates@.len() implies #[trigger] first_of(self.candidates@[c], a)
                    == first_of(cs0[c], a) by {
                    assert(first_of(cs1[c], a) == first_of(cs0[c], a));
                }
            }
            let ghost ps1 = self.parties@;
            let ghost seen1 = seen@;
            if let Some(party) = candidates[candidate.0].party {
                assert(mentions_party(candidates@, prefs@.take(j + 1), party)) by {
                    assert(prefs@.take(j + 1)[j as int] == candidate);
                }
                if index != seen[party.0] {
                    assert(!mentions_party(candidates@, prefs@.take(j as int), party));
                    assert(party_mention_weight(candidates@, party, atl)(v) == n) by {
                        assert(prefs@[j as int] == candidate);
                    }
                    proof {
                        lemma_weighted_push(done, v, party_mention_weight(candidates@, party, atl));
                        assert(PartyIndex(party.0 as usize) == party);
                        assert(weighted(all, party_mention_weight(candidates@, PartyIndex(party.0 as usize), atl)) <= usize::MAX);
                    }
                    seen.set(party.0, index);
                    let q = add_mention(self.parties[party.0], atl, n);
                    self.parties.set(party.0, q);
                }
            }
            assert forall|p: int| 0 <= p < seen@.len() implies (#[trigger] seen@[p] == index) == mentions_party(
                candidates@,
                prefs@.take(j + 1),
                PartyIndex(p as usize),
            ) by {
                let pp = PartyIndex(p as usize);
                assert(seen1[p] == index <==> mentions_party(candidates@, prefs@.take(j as int), pp));
                if mentions_party(candidates@, prefs@.take(j as int), pp) {
                    let k = choose|k: int| 0 <= k < prefs@.take(j as int).len() && party_of(candidates@, #[trigger] prefs@.take(j as int)[k]) == Some(pp);
                    assert(prefs@.take(j + 1)[k] == prefs@.take(j as int)[k]);
                }
                if mentions_party(candidates@, prefs@.take(j + 1), pp) {
                    let k = choose|k: int| 0 <= k < prefs@.take(j + 1).len() && party_of(candidates@, #[trigger] prefs@.take(j + 1)[k]) == Some(pp);
                    if k < j {
                        assert(prefs@.take(j + 1)[k] == prefs@.take(j as int)[k]);
                    }
                }
            }
            assert forall|p: int, a: bool| 0 <= p < self.parties@.len() implies #[trigger] mention_of(self.parties@[p], a) == weighted(
                done,
                party_mention_weight(candidates@, PartyIndex(p as usize), a),
            ) + if a == atl && mentions_party(candidates@, prefs@.take(j + 1), PartyIndex(p as usize)) {
                n
            } else {
                0
            } by {
                let pp = PartyIndex(p as usize);
                assert(mention_of(ps1[p], a) == weighted(done, party_mention_weight(candidates@, pp, a)) + if a == atl
                    && mentions_party(candidates@, prefs@.take(j as int), pp) {
                    n
                } else {
                    0
                });
                assert(seen1[p] == index <==> mentions_party(candidates@, prefs@.take(j as int), pp));
                assert(seen@[p] == index <==> mentions_party(candidates@, prefs@.take(j + 1), pp));
            }
            assert(same_firsts(self.parties@, ps0)) by {
                assert forall|p: int, a: bool| 0 <= p < self.parties@.len() implies #[trigger] first_of(self.parties@[p], a)
                    == first_of(ps0[p], a) by {
                    assert(first_of(ps1[p], a) == first_of(ps0[p], a));
                }
            }
        }
        assert(prefs@.take(prefs@.len() as int) =~= prefs@);
        assert forall|p: int, a: bool| 0 <= p < self.parties@.len() implies #[trigger] mention_of(self.parties@[p], a) == weighted(
            all,
            party_mention_weight(candidates@, PartyIndex(p as usize), a),
        ) by {
            let pp = PartyIndex(p as usize);
            lemma_weighted_push(done, v, party_mention_weight(candidates@, pp, a));
            assert(mention_of(self.parties@[p], a) == weighted(done, party_mention_weight(candidates@, pp, a)) + if a == atl
                && mentions_party(candidates@, prefs@, pp) {
                n
            } else {
                0
            });
        }
        assert forall|c: int, a: bool| 0 <= c < self.candidates@.len() implies #[trigger] mention_of(self.candidates@[c], a) == weighted(
            all,
            mention_weight(CandidateIndex(c as usize), a),
        ) by {
            let cc = CandidateIndex(c as usize);
            lemma_weighted_push(done, v, mention_weight(cc, a));
            assert(mention_of(self.candidates@[c], a) == weighted(done, mention_weight(cc, a)) + if a == atl {
                n * occurrences(prefs@, cc)
            } else {
                0
            });
        }
    }
}


/// The candidates an ATL vote resolves to are candidates of the election.
pub(crate) proof fn lemma_party_candidates_known(parties: Seq<PartyIndex>, all: Seq<crate::ballot_metadata::Party>, nc: nat)
    requires
        parties_known(parties, all.len()),
        forall|p: int, k: int| 0 <= p < all.len() && 0 <= k < all[p].candidates@.len() ==> (#[trigger] all[p].candidates@[k]).0 < nc,
    ensures
        forall|k: int| 0 <= k < party_candidates(parties, all).len() ==> (#[trigger] party_candidates(parties, all)[k]).0 < nc,
    decreases parties.len(),
{
    if parties.len() > 0 {
        let d = parties.drop_last();
        assert(parties_known(d, all.len())) by {
            assert forall|i: int| 0 <= i < d.len() implies (#[trigger] d[i]).0 < all.len() by {
                assert(d[i] == parties[i]);
            }
        }
        lemma_party_candidates_known(d, all, nc);
        let q = parties.last().0 as int;
        assert(parties.last() == parties[parties.len() - 1]);
        let pc = party_candidates(parties, all);
        let dc = party_candidates(d, all);
        assert forall|k: int| 0 <= k < pc.len() implies (#[trigger] pc[k]).0 < nc by {
            if k < dc.len() {
                assert(pc[k] == dc[k]);
            } else {
                assert(pc[k] == all[q].candidates@[k - dc.len()]);
            }
        }
    }
}

/// A list of `n` copies of a value.
pub(crate) fn copies<T: Copy>(x: T, n: usize) -> (res: Vec<T>)
    ensures
        res@ == Seq::new(n as nat, |_i: int| x),
{
    let mut res: Vec<T> = Vec::new();
    for i in 0..n
        invariant
            res@ == Seq::new(i as nat, |_i: int| x),
    {
        res.push(x);
        assert(res@ =~= Seq::new((i + 1) as nat, |_i: int| x));
    }
    res
}

impl WhoGotVotes {
    /// Count, for each candidate and each party, the votes that give them their first
    /// preference, or mention them at all, above and below the line.
    pub fn compute(data: &ElectionData) -> (res: WhoGotVotes)
        requires
            election_consistent(*data),
            counts_fit(election_votes(*data), data.metadata.candidates@, data.metadata.parties@.len()),
        ensures
            res.candidates@.len() == data.metadata.candidates@.len(),
            res.parties@.len() == data.metadata.parties@.len(),
            candidate_counts(res.candidates@, election_votes(*data)),
            party_counts(res.parties@, election_votes(*data), data.metadata.candidates@),
    {
        proof {
            let ra = restricted(None, data.atl_types@, data.atl.len());
            let rb = restricted(None, data.btl_types@, data.btl.len());
            assert(ra == seq![(0usize, data.atl.len())]);
            assert(rb == seq![(0usize, data.btl.len())]);
            assert(crate::election_data::ranges_within(ra, data.atl@.len()));
            assert(crate::election_data::ranges_within(rb, data.btl@.len()));
        }
        let resolved = data.resolve_atl_preferences();
        let votes = data.resolve_atl(&resolved, None);
        let ghost vs = election_votes(*data);
        proof {
            lemma_resolved_votes(*data, resolved@, votes@);
            assert forall|k: int| 0 <= k < votes@.len() implies vote_info(#[trigger] votes@[k]) == vs[k] by {
                assert(votes@.map_values(|v: PartiallyDistributedVote| vote_info(v))[k] == vote_info(votes@[k]));
            }
        }
        let num_candidates = data.metadata.candidates.len();
        let num_parties = data.metadata.parties.len();
        let mut res = WhoGotVotes {
            candidates: copies(NumVotesReceived::zero(), num_candidates),
            parties: copies(NumVotesReceived::zero(), num_parties),
        };
        let mut seen = copies(usize::MAX, num_parties);
        assert(vs.take(0) =~= Seq::<VoteInfo>::empty());
        for i in 0..votes.len()
            invariant
                vs == election_votes(*data),
                votes@.len() == vs.len(),
                forall|k: int| 0 <= k < votes@.len() ==> vote_info(#[trigger] votes@[k]) == vs[k],
                election_consistent(*data),
                counts_fit(vs, data.metadata.candidates@, data.metadata.parties@.len()),
                res.candidates@.len() == num_candidates,
                res.parties@.len() == num_parties,
                seen@.len() == num_parties,
                num_candidates == data.metadata.candidates@.len(),
                num_parties == data.metadata.parties@.len(),
                candidate_counts(res.candidates@, vs.take(i as int)),
                party_counts(res.parties@, vs.take(i as int), data.metadata.candidates@),
                forall|p: int| 0 <= p < seen@.len() ==> #[trigger] seen@[p] == usize::MAX || seen@[p] < i,
        {
            let vote = &votes[i];
            let atl = vote.is_atl();
            let ghost v = vs[i as int];
            assert(vote_info(*vote) == v);
            assert(vs.take(i + 1) =~= vs.take(i as int).push(v));
            proof {
                lemma_counts_fit_prefix(vs, i + 1, data.metadata.candidates@, data.metadata.parties@.len());
                if i < data.atl@.len() {
                    lemma_party_candidates_known(data.atl@[i as int].parties@, data.metadata.parties@, num_candidates as nat);
                    assert(v.1 == party_candidates(data.atl@[i as int].parties@, data.metadata.parties@));
                } else {
                    assert(v.1 == data.btl@[i - data.atl@.len()].candidates@);
                }
                assert(names_known(vote.prefs@, data.metadata.candidates@, num_parties as nat));
            }
            res.count_first(vote.n.0, vote.prefs, atl, &data.metadata.candidates, Ghost(vs.take(i as int)));
            let ghost mid = res.candidates@;
            let ghost midp = res.parties@;
            res.count_mentions(&mut seen, i, vote.n.0, vote.prefs, atl, &data.metadata.candidates, Ghost(vs.take(i as int)));
            assert forall|c: int, a: bool| 0 <= c < res.candidates@.len() implies #[trigger] first_of(res.candidates@[c], a) == weighted(
                vs.take(i + 1),
                first_weight(CandidateIndex(c as usize), a),
            ) by {
                assert(first_of(mid[c], a) == weighted(vs.take(i + 1), first_weight(CandidateIndex(c as usize), a)));
            }
            assert forall|p: int, a: bool| 0 <= p < res.parties@.len() implies #[trigger] first_of(res.parties@[p], a) == weighted(
                vs.take(i + 1),
                party_first_weight(data.metadata.candidates@, PartyIndex(p as usize), a),
            ) by {
                assert(first_of(midp[p], a) == weighted(vs.take(i + 1), party_first_weight(data.metadata.candidates@, PartyIndex(p as usize), a)));
            }
        }
        assert(vs.take(vs.len() as int) =~= vs);
        res
    }
}

} // verus!
