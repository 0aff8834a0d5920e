//! What is written on a ballot paper, and how it is read as a list of preferences.
//! A ballot paper may or may not be formal.

use vstd::prelude::*;
use crate::ballot_metadata::{CandidateIndex, ElectionMetadata, Party, PartyIndex};
use crate::text::{parse_unsigned, parse_unsigned_spec};

verus! {

/// A marking on a particular square of a ballot. This may or may not be a number.
#[derive(Copy, Clone, Debug, Eq, PartialEq, Structural)]
pub enum RawBallotMarking {
    Number(u16),
    /// A marking that is legislatively considered the same as a 1, such as a tick in some jurisdictions.
    OneEquivalent,
    Blank,
    Other,
}

/// How a piece of text written in a square is read.
pub open spec fn parse_marking_spec(marking: Seq<char>) -> RawBallotMarking {
    if marking.len() == 0 {
        RawBallotMarking::Blank
    } else if marking == seq!['X'] || marking == seq!['*'] || marking == seq!['/'] {
        RawBallotMarking::OneEquivalent
    } else {
        match parse_unsigned_spec(marking, 65535) {
            Some(n) => RawBallotMarking::Number(n as u16),
            None => RawBallotMarking::Other,
        }
    }
}

/// Read the text written in a square: blank, a cross-like mark standing for 1, a number, or something else.
pub fn parse_marking(marking: &str) -> (res: RawBallotMarking)
    ensures
        res == parse_marking_spec(marking@),
{
    let chars = crate::text::chars_of(marking);
    if chars.len() == 0 {
        RawBallotMarking::Blank
    } else if chars.len() == 1 && (chars[0] == 'X' || chars[0] == '*' || chars[0] == '/') {
        assert(marking@ == seq![chars@[0]]);
        RawBallotMarking::OneEquivalent
    } else {
        assert(chars.len() != 1 ==> marking@ != seq!['X'] && marking@ != seq!['*'] && marking@ != seq!['/']);
        assert(chars.len() == 1 ==> marking@ != seq!['X'] && marking@ != seq!['*'] && marking@ != seq!['/']) by {
            if chars.len() == 1 {
                assert(seq!['X'][0] == 'X');
                assert(seq!['*'][0] == '*');
                assert(seq!['/'][0] == '/');
            }
        }
        match parse_unsigned(marking, 65535) {
            Some(n) => RawBallotMarking::Number(n as u16),
            None => RawBallotMarking::Other,
        }
    }
}

/// The collection of marks written by the voter on the ballot.
pub struct RawBallotMarkings<'a> {
    /// atl[i] is the marking for party atl_parties[i].
    pub atl: &'a [RawBallotMarking],
    /// btl[i] is the marking for CandidateIndex(i).
    pub btl: &'a [RawBallotMarking],
    pub atl_parties: &'a [PartyIndex],
}

/// A formal vote, above the line or below the line.
#[derive(Clone, Debug)]
pub enum FormalVote {
    Btl(BTL),
    Atl(ATL),
}

/// Where a vote came from.
#[derive(Clone, Copy, Debug)]
pub enum VoteSource<'a> {
    Btl(&'a BTL),
    Atl(&'a ATL),
}

/// A below the line vote.
#[derive(Clone, Debug)]
pub struct BTL {
    /// Candidates, in preference order.
    pub candidates: Vec<CandidateIndex>,
    /// Number of people who voted in this way.
    pub n: usize,
}

/// An above the line vote, usually for multiple parties.
#[derive(Clone, Debug)]
pub struct ATL {
    /// Parties, in preference order.
    pub parties: Vec<PartyIndex>,
    /// Number of people who voted in this way.
    pub n: usize,
}

/// True iff marking `m` expresses preference number `k` (1 being the first preference).
pub open spec fn marks_preference(m: RawBallotMarking, k: int, cross_is_one: bool) -> bool {
    match m {
        RawBallotMarking::Number(x) => x as int == k,
        RawBallotMarking::OneEquivalent => cross_is_one && k == 1,
        _ => false,
    }
}

/// The number of squares in `s` that express preference number `k`.
pub open spec fn count_marks(s: Seq<RawBallotMarking>, k: int, cross_is_one: bool) -> nat
    decreases s.len(),
{
    if s.len() == 0 {
        0
    } else {
        count_marks(s.drop_last(), k, cross_is_one) + if marks_preference(s.last(), k, cross_is_one) {
            1nat
        } else {
            0nat
        }
    }
}

/// The number of squares in `s` that express preference number `j + 1`.
pub open spec fn times_marked(s: Seq<RawBallotMarking>, j: int, cross_is_one: bool) -> nat {
    count_marks(s, j + 1, cross_is_one)
}

/// Starting from preference number k+1, how far the preferences continue with each number
/// appearing exactly once.
pub open spec fn continuous_from(s: Seq<RawBallotMarking>, cross_is_one: bool, k: nat) -> nat
    decreases s.len() - k,
{
    if k >= s.len() {
        s.len()
    } else if count_marks(s, k + 1 as int, cross_is_one) == 1 {
        continuous_from(s, cross_is_one, k + 1)
    } else {
        k
    }
}

/// The number of usable preferences: 1, 2, 3, ... for as long as each number appears exactly once.
pub open spec fn stream_len(s: Seq<RawBallotMarking>, cross_is_one: bool) -> nat {
    continuous_from(s, cross_is_one, 0)
}

/// `positions` are the squares holding preferences 1, 2, 3, ... of the longest continuous stream.
pub open spec fn is_preference_stream(s: Seq<RawBallotMarking>, cross_is_one: bool, positions: Seq<usize>) -> bool {
    &&& positions.len() == stream_len(s, cross_is_one)
    &&& forall|j: int|
        0 <= j < positions.len() ==> #[trigger] positions[j] < s.len() && marks_preference(
            s[positions[j] as int],
            j + 1,
            cross_is_one,
        )
}

proof fn lemma_count_marks_step(s: Seq<RawBallotMarking>, i: int, k: int, cross_is_one: bool)
    requires
        0 <= i < s.len(),
    ensures
        count_marks(s.take(i + 1), k, cross_is_one) == count_marks(s.take(i), k, cross_is_one) + if marks_preference(s[i], k, cross_is_one) {
            1nat
        } else {
            0nat
        },
{
    assert(s.take(i + 1).drop_last() == s.take(i));
}

proof fn lemma_count_marks_bound(s: Seq<RawBallotMarking>, k: int, cross_is_one: bool)
    ensures
        count_marks(s, k, cross_is_one) <= s.len(),
    decreases s.len(),
{
    if s.len() > 0 {
        lemma_count_marks_bound(s.drop_last(), k, cross_is_one);
    }
}

proof fn lemma_continuous_from(s: Seq<RawBallotMarking>, cross_is_one: bool, k: nat)
    requires
        k <= s.len(),
    ensures
        k <= continuous_from(s, cross_is_one, k) <= s.len(),
        forall|j: int|
            k <= j < continuous_from(s, cross_is_one, k) ==> #[trigger] times_marked(s, j, cross_is_one) == 1,
        continuous_from(s, cross_is_one, k) < s.len() ==> count_marks(
            s,
            continuous_from(s, cross_is_one, k) + 1 as int,
            cross_is_one,
        ) != 1,
    decreases s.len() - k,
{
    if k < s.len() && count_marks(s, k + 1 as int, cross_is_one) == 1 {
        lemma_continuous_from(s, cross_is_one, k + 1);
    }
}

impl<'a> RawBallotMarkings<'a> {
    /// Interpret an array of markings, atls first then btls, possibly truncated if blank.
    pub fn new(parties_that_can_get_atls: &'a Vec<PartyIndex>, markings: &'a Vec<RawBallotMarking>) -> (res: Self)
        ensures
            res.atl@ == markings@.take(
                if parties_that_can_get_atls.len() < markings.len() { parties_that_can_get_atls.len() as int } else { markings.len() as int },
            ),
            res.btl@ == markings@.skip(
                if parties_that_can_get_atls.len() < markings.len() { parties_that_can_get_atls.len() as int } else { markings.len() as int },
            ),
            res.atl_parties@ == parties_that_can_get_atls@,
    {
        let cutoff = if parties_that_can_get_atls.len() < markings.len() {
            parties_that_can_get_atls.len()
        } else {
            markings.len()
        };
        let all = markings.as_slice();
        RawBallotMarkings {
            atl: &all[0..cutoff],
            btl: &all[cutoff..markings.len()],
            atl_parties: parties_that_can_get_atls.as_slice(),
        }
    }

    /// Given a raw vote, interpret it as a list of preferences, using AEC style rules:
    /// a formal below the line vote if there is one, otherwise a formal above the line vote.
    pub fn interpret_vote(&self, min_atl_prefs_needed: usize, min_btl_prefs_needed: usize) -> (res: Option<FormalVote>)
        requires
            self.atl@.len() <= self.atl_parties@.len(),
        ensures
            stream_len(self.btl@, true) >= min_btl_prefs_needed ==> (res matches Some(FormalVote::Btl(b)) && b.n == 1
                && is_preference_stream(self.btl@, true, b.candidates@.map_values(|c: CandidateIndex| c.0))),
            stream_len(self.btl@, true) < min_btl_prefs_needed && stream_len(self.atl@, true) >= min_atl_prefs_needed ==> (
                res matches Some(FormalVote::Atl(a)) && a.n == 1 && exists|positions: Seq<usize>|
                    is_preference_stream(self.atl@, true, positions) && a.parties@ == positions.map_values(
                        |p: usize| self.atl_parties@[p as int],
                    )),
            stream_len(self.btl@, true) < min_btl_prefs_needed && stream_len(self.atl@, true) < min_atl_prefs_needed
                ==> res is None,
    {
        if let Some(btl) = self.interpret_vote_as_btl(min_btl_prefs_needed) {
            Some(FormalVote::Btl(btl))
        } else if let Some(atl) = self.interpret_vote_as_atl(min_atl_prefs_needed) {
            Some(FormalVote::Atl(atl))
        } else {
            None
        }
    }

    /// Interpret a list of markings as preferences, returning the squares that hold them.
    /// * Ignore all repeated numbers. E.g. 1 2 2 ignore the 2s.
    /// * Ignore all numbers after a gap. E.g. 1 3 4 ignore the 3 and 4.
    /// * Treat a cross as a 1 iff consider_cross_as_one.
    /// Otherwise take the longest list of preferences starting at 1.
    fn look_for_continuous_streams(markings: &[RawBallotMarking], consider_cross_as_one: bool) -> (prefs: Vec<usize>)
        ensures
            is_preference_stream(markings@, consider_cross_as_one, prefs@),
    {
        let len = markings.len();
        let mut times_seen: Vec<usize> = vec![0; len];
        let mut prefs: Vec<usize> = vec![0; len];
        for i in 0..len
            invariant
                len == markings@.len(),
                len == times_seen@.len(),
                times_seen@.len() == len,
                prefs@.len() == len,
                forall|k: int|
                    0 <= k < len ==> #[trigger] times_seen@[k] == times_marked(markings@.take(i as int), k, consider_cross_as_one),
                forall|k: int|
                    0 <= k < len && #[trigger] times_seen@[k] > 0 ==> prefs@[k] < i && marks_preference(
                        markings@[prefs@[k] as int],
                        k + 1,
                        consider_cross_as_one,
                    ),
        {
            proof {
                assert forall|k: int| 0 <= k < len implies #[trigger] times_marked(markings@.take(i + 1), k, consider_cross_as_one)
                    == times_marked(markings@.take(i as int), k, consider_cross_as_one) + if marks_preference(
                    markings@[i as int],
                    k + 1,
                    consider_cross_as_one,
                ) {
                    1nat
                } else {
                    0nat
                } by {
                    lemma_count_marks_step(markings@, i as int, k + 1, consider_cross_as_one);
                    lemma_count_marks_bound(markings@.take(i as int), k + 1, consider_cross_as_one);
                }
            }
            assert forall|k: int| 0 <= k < len implies #[trigger] times_marked(markings@.take(i as int), k, consider_cross_as_one) <= i by {
                lemma_count_marks_bound(markings@.take(i as int), k + 1, consider_cross_as_one);
            }
            match markings[i] {
                RawBallotMarking::Number(n) => {
                    if n > 0 && (n as usize) <= len {
                        let k = (n - 1) as usize;
                        prefs.set(k, i);
                        let seen = times_seen[k];
                        times_seen.set(k, seen + 1);
                    }
                },
                RawBallotMarking::OneEquivalent => {
                    if consider_cross_as_one {
                        prefs.set(0, i);
                        let seen = times_seen[0];
                        times_seen.set(0, seen + 1);
                    }
                },
                _ => {},
            }
        }
        assert(markings@.take(len as int) == markings@);
        let mut num_good: usize = 0;
        while num_good < len && times_seen[num_good] == 1
            invariant
                len == markings@.len(),
                times_seen@.len() == len,
                num_good <= len,
                forall|k: int| 0 <= k < len ==> #[trigger] times_seen@[k] == times_marked(markings@, k, consider_cross_as_one),
                continuous_from(markings@, consider_cross_as_one, num_good as nat) == stream_len(markings@, consider_cross_as_one),
                forall|j: int| 0 <= j < num_good ==> #[trigger] times_seen@[j] == 1,
                prefs@.len() == len,
                forall|k: int|
                    0 <= k < len && #[trigger] times_seen@[k] > 0 ==> prefs@[k] < len && marks_preference(
                        markings@[prefs@[k] as int],
                        k + 1,
                        consider_cross_as_one,
                    ),
            decreases len - num_good,
        {
            num_good = num_good + 1;
        }
        proof {
            lemma_continuous_from(markings@, consider_cross_as_one, 0);
        }
        assert(num_good == stream_len(markings@, consider_cross_as_one));
        prefs.truncate(num_good);
        assert forall|j: int| 0 <= j < prefs@.len() implies #[trigger] prefs@[j] < markings@.len() && marks_preference(
            markings@[prefs@[j] as int],
            j + 1,
            consider_cross_as_one,
        ) by {
            assert(times_seen@[j] == 1);
        }
        prefs
    }

    fn interpret_vote_as_atl(&self, min_atl_prefs_needed: usize) -> (res: Option<ATL>)
        requires
            self.atl@.len() <= self.atl_parties@.len(),
        ensures
            match res {
                Some(a) => a.n == 1 && stream_len(self.atl@, true) >= min_atl_prefs_needed && exists|positions: Seq<usize>|
                    is_preference_stream(self.atl@, true, positions) && a.parties@ == positions.map_values(
                        |p: usize| self.atl_parties@[p as int],
                    ),
                None => stream_len(self.atl@, true) < min_atl_prefs_needed,
            },
    {
        let positions = Self::look_for_continuous_streams(self.atl, true);
        let mut parties: Vec<PartyIndex> = Vec::new();
        for j in 0..positions.len()
            invariant
                is_preference_stream(self.atl@, true, positions@),
                self.atl@.len() <= self.atl_parties@.len(),
                parties@ == positions@.take(j as int).map_values(|p: usize| self.atl_parties@[p as int]),
        {
            assert(positions@[j as int] < self.atl@.len());
            parties.push(self.atl_parties[positions[j]]);
            assert(positions@.take(j + 1) == positions@.take(j as int).push(positions@[j as int]));
        }
        assert(positions@.take(positions.len() as int) == positions@);
        if parties.len() >= min_atl_prefs_needed {
            Some(ATL { parties, n: 1 })
        } else {
            None
        }
    }

    /// Interpret the below the line markings as a vote, if it has at least the given number of preferences.
    pub fn interpret_vote_as_btl(&self, min_btl_prefs_needed: usize) -> (res: Option<BTL>)
        ensures
            match res {
                Some(b) => b.n == 1 && b.candidates@.len() >= min_btl_prefs_needed && is_preference_stream(
                    self.btl@,
                    true,
                    b.candidates@.map_values(|c: CandidateIndex| c.0),
                ),
                None => stream_len(self.btl@, true) < min_btl_prefs_needed,
            },
    {
        let positions = Self::look_for_continuous_streams(self.btl, true);
        let mut candidates: Vec<CandidateIndex> = Vec::new();
        for j in 0..positions.len()
            invariant
                candidates@.len() == j,
                forall|t: int| 0 <= t < j ==> #[trigger] candidates@[t].0 == positions@[t],
        {
            candidates.push(CandidateIndex(positions[j]));
        }
        assert(candidates@.map_values(|c: CandidateIndex| c.0) =~= positions@);
        if candidates.len() >= min_btl_prefs_needed {
            Some(BTL { candidates, n: 1 })
        } else {
            None
        }
    }
}

} // verus!

verus! {

/// The candidates of the parties, party by party, each party's in its own order.
pub open spec fn party_candidates(parties: Seq<PartyIndex>, all: Seq<Party>) -> Seq<CandidateIndex>
    decreases parties.len(),
{
    if parties.len() == 0 {
        Seq::empty()
    } else {
        party_candidates(parties.drop_last(), all) + all[parties.last().0 as int].candidates@
    }
}

/// Every party named is one of the `n` parties of the election.
pub open spec fn parties_known(parties: Seq<PartyIndex>, n: nat) -> bool {
    forall|i: int| 0 <= i < parties.len() ==> (#[trigger] parties[i]).0 < n
}

impl ATL {
    /// The candidates this vote goes to, in preference order: the candidates of each party
    /// voted for, in the party's order.
    pub fn resolve_to_candidates(&self, metadata: &ElectionMetadata) -> (res: Vec<CandidateIndex>)
        requires
            parties_known(self.parties@, metadata.parties@.len()),
        ensures
            res@ == party_candidates(self.parties@, metadata.parties@),
    {
        let mut res: Vec<CandidateIndex> = Vec::new();
        for i in 0..self.parties.len()
            invariant
                parties_known(self.parties@, metadata.parties@.len()),
                res@ == party_candidates(self.parties@.take(i as int), metadata.parties@),
        {
            let party = &metadata.parties[self.parties[i].0];
            let ghost before = res@;
            for j in 0..party.candidates.len()
                invariant
                    res@ == before + party.candidates@.take(j as int),
            {
                res.push(party.candidates[j]);
                assert(party.candidates@.take(j + 1) =~= party.candidates@.take(j as int).push(party.candidates@[j as int]));
            }
            assert(party.candidates@.take(party.candidates@.len() as int) =~= party.candidates@);
            assert(self.parties@.take(i + 1).drop_last() =~= self.parties@.take(i as int));
        }
        assert(self.parties@.take(self.parties@.len() as int) =~= self.parties@);
        res
    }
}

} // verus!
