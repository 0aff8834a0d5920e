//! A table of where votes go: for each first preference, which of some candidates or groups of
//! interest the vote reaches first, if any.

use vstd::prelude::*;
use crate::ballot_metadata::{Candidate, CandidateIndex, Party};
use crate::ballot_pile::{BallotPaperCount, PartiallyDistributedVote};
use crate::election_data::{ElectionData, restricted};
use crate::who_got_votes::{
    VoteInfo, copies, election_votes, election_consistent, lemma_party_candidates_known, lemma_resolved_votes, lemma_weighted_prefix,
    lemma_weighted_push, party_of, vote_info, weighted,
};
use crate::ballot_paper::party_candidates;

verus! {

/// The table: table[first preference][column] is the number of votes with that first preference
/// that reach the candidate or group of interest of that column first; the last column is for
/// votes that reach none.
#[derive(Debug, Clone)]
pub struct IntentTable {
    pub table: Vec<Vec<BallotPaperCount>>,
}

/// What the table is about.
#[derive(Debug, Clone)]
pub struct IntentTableOptions {
    /// if true, then the first preference distribution is by groups, otherwise by candidates.
    pub first_pref_by_groups: bool,
    /// if true, then the who array represents groups, otherwise candidates.
    pub who_is_groups: bool,
    /// if true, use ATL votes
    pub use_atl: bool,
    /// if true, use BTL votes
    pub use_btl: bool,
    /// who is of interest. If who_is_groups, then a group index, else a candidate index.
    pub who: Vec<usize>,
}

/// The entry `w` of interest covers candidate `c`: it is that candidate, or that candidate's group.
pub open spec fn covers(options: IntentTableOptions, parties: Seq<Party>, w: int, c: CandidateIndex) -> bool {
    if options.who_is_groups {
        parties[options.who@[w] as int].candidates@.contains(c)
    } else {
        options.who@[w] == c.0
    }
}

/// The column of a candidate, looking at the first `k` entries of interest: the last that covers
/// it, or the column for none.
pub open spec fn column_of(options: IntentTableOptions, parties: Seq<Party>, c: CandidateIndex, k: int) -> int
    decreases k,
{
    if k <= 0 {
        options.who@.len() as int
    } else if covers(options, parties, k - 1, c) {
        k - 1
    } else {
        column_of(options, parties, c, k - 1)
    }
}

/// A column is one of the entries of interest, or the column for none.
proof fn lemma_column_of_bounds(options: IntentTableOptions, parties: Seq<Party>, c: CandidateIndex, k: int)
    requires
        k <= options.who@.len(),
    ensures
        0 <= column_of(options, parties, c, k) <= options.who@.len(),
    decreases k,
{
    if k > 0 && !covers(options, parties, k - 1, c) {
        lemma_column_of_bounds(options, parties, c, k - 1);
    }
}

/// The column a vote reaches: that of its first preference covered by an entry of interest, or
/// the column for none.
pub open spec fn column_reached(options: IntentTableOptions, parties: Seq<Party>, prefs: Seq<CandidateIndex>) -> int
    decreases prefs.len(),
{
    if prefs.len() == 0 {
        options.who@.len() as int
    } else if column_of(options, parties, prefs[0], options.who@.len() as int) != options.who@.len() {
        column_of(options, parties, prefs[0], options.who@.len() as int)
    } else {
        column_reached(options, parties, prefs.drop_first())
    }
}

/// The row of a vote that is used: its first preference, or that candidate's group; none if the
/// vote is not used or the candidate has no group.
pub open spec fn row_of(options: IntentTableOptions, candidates: Seq<Candidate>, v: VoteInfo) -> Option<int> {
    if v.1.len() > 0 && (if v.2 {
        options.use_atl
    } else {
        options.use_btl
    }) {
        if options.first_pref_by_groups {
            match party_of(candidates, v.1[0]) {
                Some(p) => Some(p.0 as int),
                None => None,
            }
        } else {
            Some(v.1[0].0 as int)
        }
    } else {
        None
    }
}

/// The voters of a vote that go in row `r` and column `k`.
pub open spec fn cell_weight(
    options: IntentTableOptions,
    candidates: Seq<Candidate>,
    parties: Seq<Party>,
    r: int,
    k: int,
) -> spec_fn(VoteInfo) -> nat {
    |v: VoteInfo| if row_of(options, candidates, v) == Some(r) && column_reached(options, parties, v.1) == k {
        v.0
    } else {
        0
    }
}

/// The number of rows of the table.
pub open spec fn num_rows(options: IntentTableOptions, data: ElectionData) -> nat {
    if options.first_pref_by_groups {
        data.metadata.parties@.len()
    } else {
        data.metadata.candidates@.len()
    }
}

/// The table holds, in each cell, the voters of the votes that go there.
pub open spec fn table_is(table: Seq<Vec<BallotPaperCount>>, options: IntentTableOptions, data: ElectionData, votes: Seq<VoteInfo>) -> bool {
    &&& table.len() == num_rows(options, data)
    &&& forall|r: int| 0 <= r < table.len() ==> (#[trigger] table[r])@.len() == options.who@.len() + 1
    &&& forall|r: int, k: int|
        0 <= r < table.len() && 0 <= k <= options.who@.len() ==> (#[trigger] table[r]@[k]).0 == weighted(
            votes,
            cell_weight(options, data.metadata.candidates@, data.metadata.parties@, r, k),
        )
}

/// Every entry of interest names a group or candidate of the election.
pub open spec fn options_fit(options: IntentTableOptions, data: ElectionData) -> bool {
    forall|w: int|
        0 <= w < options.who@.len() ==> (#[trigger] options.who@[w]) < if options.who_is_groups {
            data.metadata.parties@.len()
        } else {
            data.metadata.candidates@.len()
        }
}

/// Every cell of the table fits in a usize.
pub open spec fn cells_fit(options: IntentTableOptions, data: ElectionData, votes: Seq<VoteInfo>) -> bool {
    forall|r: int, k: int|
        0 <= r < num_rows(options, data) && 0 <= k <= options.who@.len() ==> #[trigger] weighted(
            votes,
            cell_weight(options, data.metadata.candidates@, data.metadata.parties@, r, k),
        ) <= usize::MAX
}


/// A vote that the options leave out (an ATL vote without `use_atl`, a BTL vote without
/// `use_btl`, or a vote with no preferences) counts in no cell.
pub proof fn lemma_unused_vote_counts_nowhere(
    options: IntentTableOptions,
    candidates: Seq<Candidate>,
    parties: Seq<Party>,
    v: VoteInfo,
    r: int,
    k: int,
)
    requires
        v.1.len() == 0 || (v.2 && !options.use_atl) || (!v.2 && !options.use_btl),
    ensures
        (cell_weight(options, candidates, parties, r, k))(v) == 0,
{
}

/// A vote that the options use, with the table by candidate, counts all its voters in the row of
/// its first preference, in the column it reaches, and in no other cell.
pub proof fn lemma_used_vote_counts_in_its_cell(
    options: IntentTableOptions,
    candidates: Seq<Candidate>,
    parties: Seq<Party>,
    v: VoteInfo,
    r: int,
    k: int,
)
    requires
        v.1.len() > 0,
        (v.2 && options.use_atl) || (!v.2 && options.use_btl),
        !options.first_pref_by_groups,
    ensures
        (cell_weight(options, candidates, parties, r, k))(v) == if r == v.1[0].0 && k == column_reached(options, parties, v.1) {
            v.0
        } else {
            0
        },
{
}

/// Votes that each count nothing add nothing.
proof fn lemma_weighted_nothing_added(a: Seq<VoteInfo>, b: Seq<VoteInfo>, w: spec_fn(VoteInfo) -> nat)
    requires
        forall|i: int| 0 <= i < b.len() ==> w(#[trigger] b[i]) == 0,
    ensures
        weighted(a + b, w) == weighted(a, w),
    decreases b.len(),
{
    if b.len() > 0 {
        assert((a + b).drop_last() =~= a + b.drop_last());
        assert((a + b).last() == b[b.len() - 1]);
        lemma_weighted_nothing_added(a, b.drop_last(), w);
    } else {
        assert(a + b =~= a);
    }
}

/// Without `use_btl`, every cell of the table holds what the ATL votes alone put there: no BTL
/// vote changes any cell.
pub proof fn lemma_table_ignores_btl_without_use_btl(table: Seq<Vec<BallotPaperCount>>, options: IntentTableOptions, data: ElectionData)
    requires
        table_is(table, options, data, election_votes(data)),
        !options.use_btl,
    ensures
        forall|r: int, k: int|
            0 <= r < table.len() && 0 <= k <= options.who@.len() ==> (#[trigger] table[r]@[k]).0 == weighted(
                data.atl@.map_values(|a: crate::ballot_paper::ATL| (a.n as nat, party_candidates(a.parties@, data.metadata.parties@), true)),
                cell_weight(options, data.metadata.candidates@, data.metadata.parties@, r, k),
            ),
{
    let a = data.atl@.map_values(|a: crate::ballot_paper::ATL| (a.n as nat, party_candidates(a.parties@, data.metadata.parties@), true));
    let b = data.btl@.map_values(|b: crate::ballot_paper::BTL| (b.n as nat, b.candidates@, false));
    assert forall|r: int, k: int| 0 <= r < table.len() && 0 <= k <= options.who@.len() implies (#[trigger] table[r]@[k]).0 == weighted(
        a,
        cell_weight(options, data.metadata.candidates@, data.metadata.parties@, r, k),
    ) by {
        let w = cell_weight(options, data.metadata.candidates@, data.metadata.parties@, r, k);
        assert forall|i: int| 0 <= i < b.len() implies w(#[trigger] b[i]) == 0 by {
            lemma_unused_vote_counts_nowhere(options, data.metadata.candidates@, data.metadata.parties@, b[i], r, k);
        }
        lemma_weighted_nothing_added(a, b, w);
        assert(election_votes(data) == a + b);
    }
}

/// Without `use_atl`, every cell of the table holds what the BTL votes alone put there: no ATL
/// vote changes any cell.
pub proof fn lemma_table_ignores_atl_without_use_atl(table: Seq<Vec<BallotPaperCount>>, options: IntentTableOptions, data: ElectionData)
    requires
        table_is(table, options, data, election_votes(data)),
        !options.use_atl,
    ensures
        forall|r: int, k: int|
            0 <= r < table.len() && 0 <= k <= options.who@.len() ==> (#[trigger] table[r]@[k]).0 == weighted(
                data.btl@.map_values(|b: crate::ballot_paper::BTL| (b.n as nat, b.candidates@, false)),
                cell_weight(options, data.metadata.candidates@, data.metadata.parties@, r, k),
            ),
{
    let a = data.atl@.map_values(|a: crate::ballot_paper::ATL| (a.n as nat, party_candidates(a.parties@, data.metadata.parties@), true));
    let b = data.btl@.map_values(|b: crate::ballot_paper::BTL| (b.n as nat, b.candidates@, false));
    assert forall|r: int, k: int| 0 <= r < table.len() && 0 <= k <= options.who@.len() implies (#[trigger] table[r]@[k]).0 == weighted(
        b,
        cell_weight(options, data.metadata.candidates@, data.metadata.parties@, r, k),
    ) by {
        let w = cell_weight(options, data.metadata.candidates@, data.metadata.parties@, r, k);
        assert forall|i: int| 0 <= i < a.len() implies w(#[trigger] a[i]) == 0 by {
            lemma_unused_vote_counts_nowhere(options, data.metadata.candidates@, data.metadata.parties@, a[i], r, k);
        }
        lemma_weighted_nothing_before(a, b, w);
        assert(election_votes(data) == a + b);
    }
}

/// Votes before that each count nothing add nothing.
proof fn lemma_weighted_nothing_before(a: Seq<VoteInfo>, b: Seq<VoteInfo>, w: spec_fn(VoteInfo) -> nat)
    requires
        forall|i: int| 0 <= i < a.len() ==> w(#[trigger] a[i]) == 0,
    ensures
        weighted(a + b, w) == weighted(b, w),
    decreases b.len(),
{
    if b.len() > 0 {
        assert((a + b).drop_last() =~= a + b.drop_last());
        assert((a + b).last() == b[b.len() - 1]);
        lemma_weighted_nothing_before(a, b.drop_last(), w);
    } else {
        assert(a + b =~= a);
        lemma_weighted_zero(a, w);
    }
}

/// Votes that each count nothing weigh nothing.
proof fn lemma_weighted_zero(a: Seq<VoteInfo>, w: spec_fn(VoteInfo) -> nat)
    requires
        forall|i: int| 0 <= i < a.len() ==> w(#[trigger] a[i]) == 0,
    ensures
        weighted(a, w) == 0,
    decreases a.len(),
{
    if a.len() > 0 {
        assert(w(a[a.len() - 1]) == 0);
        let p = a.drop_last();
        assert forall|i: int| 0 <= i < p.len() implies w(#[trigger] p[i]) == 0 by {
            assert(p[i] == a[i]);
        }
        lemma_weighted_zero(p, w);
    }
}

/// Add `n` to one cell of a table.
fn bump(table: &mut Vec<Vec<BallotPaperCount>>, r: usize, k: usize, n: usize)
    requires
        r < old(table)@.len(),
        k < old(table)@[r as int]@.len(),
        old(table)@[r as int]@[k as int].0 + n <= usize::MAX,
    ensures
        final(table)@.len() == old(table)@.len(),
        forall|i: int| 0 <= i < final(table)@.len() && i != r ==> #[trigger] final(table)@[i] == old(table)@[i],
        final(table)@[r as int]@ == old(table)@[r as int]@.update(k as int, BallotPaperCount((old(table)@[r as int]@[k as int].0 + n) as usize)),
{
    let row = &mut table[r];
    let current = row[k].0;
    row.set(k, BallotPaperCount(current + n));
}

/// The column of each candidate.
fn candidate_columns(options: &IntentTableOptions, data: &ElectionData) -> (res: Vec<usize>)
    requires
        options_fit(*options, *data),
        election_consistent(*data),
    ensures
        res@.len() == data.metadata.candidates@.len(),
        forall|c: int| 0 <= c < res@.len() ==> #[trigger] res@[c] as int == column_of(
            *options,
            data.metadata.parties@,
            CandidateIndex(c as usize),
            options.who@.len() as int,
        ),
{
    let nc = data.metadata.candidates.len();
    let none = options.who.len();
    let mut map = copies(none, nc);
    for w in 0..options.who.len()
        invariant
            map@.len() == nc,
            nc == data.metadata.candidates@.len(),
            none == options.who@.len(),
            options_fit(*options, *data),
            election_consistent(*data),
            forall|c: int| 0 <= c < nc ==> #[trigger] map@[c] as int == column_of(*options, data.metadata.parties@, CandidateIndex(c as usize), w as int),
    {
        let who = options.who[w];
        if options.who_is_groups {
            let party = &data.metadata.parties[who];
            let ghost before = map@;
            for j in 0..party.candidates.len()
                invariant
                    map@.len() == nc,
                    nc == data.metadata.candidates@.len(),
                    election_consistent(*data),
                    who < data.metadata.parties@.len(),
                    *party == data.metadata.parties@[who as int],
                    forall|c: int| 0 <= c < nc ==> #[trigger] map@[c] == if party.candidates@.take(j as int).contains(CandidateIndex(c as usize)) {
                        w
                    } else {
                        before[c]
                    },
            {
                let candidate = party.candidates[j];
                assert(candidate.0 < nc);
                map.set(candidate.0, w);
                assert forall|c: int| 0 <= c < nc implies #[trigger] map@[c] == if party.candidates@.take(j + 1).contains(CandidateIndex(c as usize)) {
                    w
                } else {
                    before[c]
                } by {
                    let cc = CandidateIndex(c as usize);
                    assert(cc.0 as int == c);
                    if party.candidates@.take(j as int).contains(cc) {
                        let m = choose|m: int| 0 <= m < j && #[trigger] party.candidates@.take(j as int)[m] == cc;
                        assert(party.candidates@.take(j + 1)[m] == cc);
                    }
                    if party.candidates@.take(j + 1).contains(cc) {
                        let m = choose|m: int| 0 <= m < j + 1 && #[trigger] party.candidates@.take(j + 1)[m] == cc;
                        if m < j {
                            assert(party.candidates@.take(j as int)[m] == cc);
                        } else {
                            assert(cc == candidate);
                        }
                    }
                    if c == candidate.0 {
                        assert(cc == candidate);
                        assert(party.candidates@.take(j + 1)[j as int] == cc);
                    }
                }
            }
            assert(party.candidates@.take(party.candidates@.len() as int) =~= party.candidates@);
        } else {
            map.set(who, w);
            assert forall|c: int| 0 <= c < nc implies #[trigger] map@[c] as int == column_of(*options, data.metadata.parties@, CandidateIndex(c as usize), w + 1) by {
                let cc = CandidateIndex(c as usize);
                assert(cc.0 as int == c);
            }
        }
    }
    map
}

/// A table with `rows` rows of `cols` zeros.
fn zero_table(rows: usize, cols: usize) -> (res: Vec<Vec<BallotPaperCount>>)
    ensures
        res@.len() == rows,
        forall|r: int| 0 <= r < rows ==> (#[trigger] res@[r])@ == Seq::new(cols as nat, |_k: int| BallotPaperCount(0)),
{
    let mut res: Vec<Vec<BallotPaperCount>> = Vec::new();
    for i in 0..rows
        invariant
            res@.len() == i,
            forall|r: int| 0 <= r < i ==> (#[trigger] res@[r])@ == Seq::new(cols as nat, |_k: int| BallotPaperCount(0)),
    {
        res.push(copies(BallotPaperCount(0), cols));
    }
    res
}

impl IntentTable {
    /// Compute the table for the votes of an election.
    #[verifier::loop_isolation(false)]
    #[verifier::rlimit(60)]
    #[verifier::spinoff_prover]
    pub fn compute(data: &ElectionData, options: &IntentTableOptions) -> (res: Self)
        requires
            election_consistent(*data),
            options_fit(*options, *data),
            options.who@.len() < usize::MAX,
            cells_fit(*options, *data, election_votes(*data)),
        ensures
            table_is(res.table@, *options, *data, election_votes(*data)),
    {
        let num_rows = if options.first_pref_by_groups {
            data.metadata.parties.len()
        } else {
            data.metadata.candidates.len()
        };
        let num_cols = options.who.len() + 1;
        let exhausted_column = options.who.len();
        let mut table = zero_table(num_rows, num_cols);
        let candidate_to_who_index = candidate_columns(options, data);
        proof {
            let ra = restricted(None, data.atl_types@, data.atl.len());
            let rb = restricted(None, data.btl_types@, data.btl.len());
            assert(ra == seq![(0usize, data.atl.len())]);
            assert(rb == seq![(0usize, data.btl.len())]);
            assert(crate::election_data::ranges_within(ra, data.atl@.len()));
            assert(crate::election_data::ranges_within(rb, data.btl@.len()));
        }
        let resolved = data.resolve_atl_preferences();
        let votes = data.resolve_atl(&resolved, None);
        let ghost vs = election_votes(*data);
        let ghost cands = data.metadata.candidates@;
        let ghost parties = data.metadata.parties@;
        proof {
            lemma_resolved_votes(*data, resolved@, votes@);
            assert forall|k: int| 0 <= k < votes@.len() implies vote_info(#[trigger] votes@[k]) == vs[k] by {
                assert(votes@.map_values(|v: PartiallyDistributedVote| vote_info(v))[k] == vote_info(votes@[k]));
            }
            assert(vs.take(0) =~= Seq::<VoteInfo>::empty());
            assert forall|r: int, k: int| 0 <= r < table@.len() && 0 <= k <= options.who@.len() implies (#[trigger] table@[r]@[k]).0
                == weighted(vs.take(0), cell_weight(*options, cands, parties, r, k)) by {}
        }
        for i in 0..votes.len()
            invariant
                votes@.len() == vs.len(),
                forall|k: int| 0 <= k < votes@.len() ==> vote_info(#[trigger] votes@[k]) == vs[k],
                table_is(table@, *options, *data, vs.take(i as int)),
        {
            let vote = &votes[i];
            let ghost v = vs[i as int];
            let n = vote.n.0;
            assert(vote_info(*vote) == v);
            assert(vs.take(i + 1) =~= vs.take(i as int).push(v));
            proof {
                if i < data.atl@.len() {
                    lemma_party_candidates_known(data.atl@[i as int].parties@, data.metadata.parties@, data.metadata.candidates@.len());
                    assert(v.1 == party_candidates(data.atl@[i as int].parties@, data.metadata.parties@));
                } else {
                    assert(v.1 == data.btl@[i - data.atl@.len()].candidates@);
                }
                assert forall|r: int, k: int| 0 <= r < table@.len() && 0 <= k <= options.who@.len() implies weighted(
                    vs.take(i + 1),
                    #[trigger] cell_weight(*options, cands, parties, r, k),
                ) == weighted(vs.take(i as int), cell_weight(*options, cands, parties, r, k)) + cell_weight(*options, cands, parties, r, k)(v) by {
                    lemma_weighted_push(vs.take(i as int), v, cell_weight(*options, cands, parties, r, k));
                }
            }
            let ghost table0 = table@;
            let used = if vote.is_atl() {
                options.use_atl
            } else {
                options.use_btl
            };
            let mut row: Option<usize> = None;
            if vote.prefs.len() > 0 && used {
                let first_preference_candidate = vote.prefs[0];
                if options.first_pref_by_groups {
                    if let Some(p) = data.metadata.candidates[first_preference_candidate.0].party {
                        row = Some(p.0);
                    }
                } else {
                    row = Some(first_preference_candidate.0);
                }
            }
            assert(match row_of(*options, cands, v) {
                Some(r) => row == Some(r as usize) && r < num_rows,
                None => row is None,
            });
            if let Some(first_preference) = row {
                let mut found_col = exhausted_column;
                let mut j: usize = 0;
                assert(vote.prefs@.skip(0) =~= vote.prefs@);
                while j < vote.prefs.len()
                    invariant
                        j <= vote.prefs@.len(),
                        found_col == exhausted_column,
                        column_reached(*options, parties, vote.prefs@) == column_reached(*options, parties, vote.prefs@.skip(j as int)),
                    decreases vote.prefs@.len() - j,
                {
                    let candidate = vote.prefs[j];
                    let found = candidate_to_who_index[candidate.0];
                    proof {
                        lemma_column_of_bounds(*options, parties, candidate, options.who@.len() as int);
                        assert(CandidateIndex(candidate.0 as usize) == candidate);
                    }
                    assert(vote.prefs@.skip(j as int)[0] == candidate);
                    assert(vote.prefs@.skip(j as int).drop_first() =~= vote.prefs@.skip(j + 1));
                    if found != exhausted_column {
                        found_col = found;
                        break;
                    }
                    j = j + 1;
                }
                proof {
                    if found_col == exhausted_column {
                        assert(vote.prefs@.skip(j as int).len() == 0);
                    }
                    assert(found_col as int == column_reached(*options, parties, vote.prefs@));
                    let rr = first_preference as int;
                    let kk = found_col as int;
                    lemma_weighted_prefix(vs, i + 1, cell_weight(*options, cands, parties, rr, kk));
                    assert(cell_weight(*options, cands, parties, rr, kk)(v) == n);
                }
                assert(table@[first_preference as int]@.len() == options.who@.len() + 1);
                bump(&mut table, first_preference, found_col, n);
                assert forall|r: int| 0 <= r < table@.len() implies (#[trigger] table@[r])@.len() == options.who@.len() + 1 by {
                    assert(table0[r]@.len() == options.who@.len() + 1);
                }
                assert forall|r: int, k: int| 0 <= r < table@.len() && 0 <= k <= options.who@.len() implies (#[trigger] table@[r]@[k]).0
                    == weighted(vs.take(i + 1), cell_weight(*options, cands, parties, r, k)) by {
                    assert(table0[r]@[k].0 == weighted(vs.take(i as int), cell_weight(*options, cands, parties, r, k)));
                }
            } else {
                assert forall|r: int, k: int| 0 <= r < table@.len() && 0 <= k <= options.who@.len() implies (#[trigger] table@[r]@[k]).0
                    == weighted(vs.take(i + 1), cell_weight(*options, cands, parties, r, k)) by {
                    assert(table0[r]@[k].0 == weighted(vs.take(i as int), cell_weight(*options, cands, parties, r, k)));
                }
            }
        }
        assert(vs.take(vs.len() as int) =~= vs);
        IntentTable { table }
    }
}

} // verus!
