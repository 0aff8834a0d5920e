//! Finding the votes most like a given one.

use vstd::prelude::*;
pub use vstd::hash_map::StringHashMap;
use crate::ballot_paper::{parse_marking, parse_marking_spec, RawBallotMarking};
use crate::ballot_metadata::first_occurrence;
use crate::text::{chars_of, string_of};

verus! {

/// A vote that matched.
pub struct FindVoteHit {
    pub metadata: StringHashMap<String>,
    /// comma separated list of votes.
    pub votes: String,
}

/// The votes that matched equally well.
pub struct SearchMatchesWithSameScore {
    pub score: usize,
    pub hits: Vec<FindVoteHit>,
    /// the number of hits not mentioned here.
    pub truncated: usize,
}

/// The best matches, highest score earliest.
pub struct FindMyVoteResult {
    pub best: Vec<SearchMatchesWithSameScore>,
}

/// What to look for.
#[derive(Debug, Clone)]
pub struct FindMyVoteQuery {
    /// a comma separated string of preferences
    pub query: String,
    pub blank_matches_anything: bool,
}

/// The most different scores kept.
pub const MAX_SCORES_WANTED: usize = 3;

/// The most hits kept for each score.
pub const MAX_HITS_PER_SCORE_WANTED: usize = 10;

/// The pieces of a text between commas.
pub open spec fn split_on_commas(s: Seq<char>) -> Seq<Seq<char>>
    decreases s.len(),
{
    if exists|i: int| first_occurrence(s, ',', i) {
        let i = choose|i: int| first_occurrence(s, ',', i);
        seq![s.take(i)] + split_on_commas(s.skip(i + 1))
    } else {
        seq![s]
    }
}

/// How well a vote's markings match the query: the number of leading positions (as many as both
/// have) where they agree, or where the query is blank and blanks match anything.
pub open spec fn match_score(query: Seq<RawBallotMarking>, markings: Seq<RawBallotMarking>, blank_matches_anything: bool) -> nat
    decreases markings.len(),
{
    if markings.len() == 0 {
        0
    } else {
        let i = markings.len() - 1;
        match_score(query, markings.drop_last(), blank_matches_anything) + if i < query.len() && (query[i]
            == markings[i] || (blank_matches_anything && query[i] == RawBallotMarking::Blank)) {
            1nat
        } else {
            0nat
        }
    }
}

/// The number of positions both the query and a paper have.
pub open spec fn positions_compared(query: Seq<RawBallotMarking>, markings: Seq<RawBallotMarking>) -> nat {
    if markings.len() < query.len() {
        markings.len()
    } else {
        query.len()
    }
}

/// A paper that has the query's marking at every position the query and the paper both have,
/// except where the query is blank and blanks match anything, scores every such position: a
/// blank in the query matches whatever the paper has there.
pub proof fn lemma_score_when_query_met(query: Seq<RawBallotMarking>, markings: Seq<RawBallotMarking>, blank_matches_anything: bool)
    requires
        forall|i: int|
            0 <= i < markings.len() && i < query.len() ==> #[trigger] markings[i] == query[i] || (blank_matches_anything
                && query[i] == RawBallotMarking::Blank),
    ensures
        match_score(query, markings, blank_matches_anything) == positions_compared(query, markings),
    decreases markings.len(),
{
    if markings.len() > 0 {
        let p = markings.drop_last();
        assert forall|i: int|
            0 <= i < p.len() && i < query.len() implies #[trigger] p[i] == query[i] || (blank_matches_anything && query[i]
                == RawBallotMarking::Blank) by {
            assert(p[i] == markings[i]);
        }
        lemma_score_when_query_met(query, p, blank_matches_anything);
    }
}

/// A paper that differs from the query at every position both have, where the query is not a
/// blank that matches anything, scores nothing.
pub proof fn lemma_score_when_nothing_met(query: Seq<RawBallotMarking>, markings: Seq<RawBallotMarking>, blank_matches_anything: bool)
    requires
        forall|i: int|
            0 <= i < markings.len() && i < query.len() ==> #[trigger] markings[i] != query[i] && !(blank_matches_anything
                && query[i] == RawBallotMarking::Blank),
    ensures
        match_score(query, markings, blank_matches_anything) == 0,
    decreases markings.len(),
{
    if markings.len() > 0 {
        let p = markings.drop_last();
        assert forall|i: int|
            0 <= i < p.len() && i < query.len() implies #[trigger] p[i] != query[i] && !(blank_matches_anything && query[i]
                == RawBallotMarking::Blank) by {
            assert(p[i] == markings[i]);
        }
        lemma_score_when_nothing_met(query, p, blank_matches_anything);
        let i = markings.len() - 1;
        if i < query.len() {
            assert(markings[i] != query[i]);
        }
    }
}

impl FindMyVoteQuery {
    /// The query as markings.
    pub fn parse_query(&self) -> (res: Vec<RawBallotMarking>)
        ensures
            res@ == split_on_commas(self.query@).map_values(|p: Seq<char>| parse_marking_spec(p)),
    {
        let chars = chars_of(self.query.as_str());
        let mut res: Vec<RawBallotMarking> = Vec::new();
        let mut start: usize = 0;
        let ghost s = self.query@;
        assert(s.skip(0) =~= s);
        let mut finished = false;
        while !finished
            invariant
                chars@ == s,
                start <= chars@.len(),
                !finished ==> split_on_commas(s).map_values(|p: Seq<char>| parse_marking_spec(p)) == res@
                    + split_on_commas(s.skip(start as int)).map_values(|p: Seq<char>| parse_marking_spec(p)),
                finished ==> split_on_commas(s).map_values(|p: Seq<char>| parse_marking_spec(p)) == res@,
            decreases chars@.len() - start + (if finished { 0int } else { 1int }),
        {
            let mut end = start;
            while end < chars.len() && chars[end] != ','
                invariant
                    start <= end <= chars@.len(),
                    chars@ == s,
                    forall|j: int| start <= j < end ==> chars@[j] != ',',
                decreases chars@.len() - end,
            {
                end = end + 1;
            }
            let ghost rest = s.skip(start as int);
            let mut piece: Vec<char> = Vec::new();
            for k in start..end
                invariant
                    start <= end <= chars@.len(),
                    piece@ == chars@.subrange(start as int, k as int),
            {
                piece.push(chars[k]);
                assert(chars@.subrange(start as int, k + 1) =~= chars@.subrange(start as int, k as int).push(chars@[k as int]));
            }
            let text = string_of(&piece);
            let m = parse_marking(text.as_str());
            let ghost before = res@;
            res.push(m);
            if end == chars.len() {
                assert(!exists|i: int| first_occurrence(rest, ',', i)) by {
                    if exists|i: int| first_occurrence(rest, ',', i) {
                        let i = choose|i: int| first_occurrence(rest, ',', i);
                        assert(chars@[start + i] == ',');
                    }
                }
                assert(rest =~= piece@);
                assert(split_on_commas(rest) == seq![rest]);
                assert(split_on_commas(rest).map_values(|p: Seq<char>| parse_marking_spec(p)) =~= seq![m]);
                assert(res@ =~= before.push(m));
                finished = true;
            } else {
                let ghost i = end - start;
                assert(first_occurrence(rest, ',', i));
                assert forall|k: int| first_occurrence(rest, ',', k) implies k == i by {
                    if k < i {
                        assert(chars@[start + k] != ',');
                    } else if k > i {
                        assert(rest[i] == ',');
                    }
                }
                assert(rest.take(i) =~= piece@);
                assert(rest.skip(i + 1) =~= s.skip(end + 1));
                assert(split_on_commas(rest) == seq![rest.take(i)] + split_on_commas(rest.skip(i + 1)));
                assert(split_on_commas(rest).map_values(|p: Seq<char>| parse_marking_spec(p)) =~= seq![m]
                    + split_on_commas(s.skip(end + 1)).map_values(|p: Seq<char>| parse_marking_spec(p)));
                assert(res@ =~= before.push(m));
                start = end + 1;
            }
        }
        res
    }

    /// How well a vote's markings match this query.
    #[verifier::loop_isolation(false)]
    pub fn score(&self, query: &Vec<RawBallotMarking>, markings: &[RawBallotMarking]) -> (res: usize)
        ensures
            res == match_score(query@, markings@, self.blank_matches_anything),
    {
        let mut score: usize = 0;
        let n = if markings.len() < query.len() { markings.len() } else { query.len() };
        for i in 0..markings.len()
            invariant
                score == match_score(query@, markings@.take(i as int), self.blank_matches_anything),
                score <= i,
        {
            assert(markings@.take(i + 1).drop_last() =~= markings@.take(i as int));
            if i < n {
                let me = query[i];
                let them = markings[i];
                if me == them || (self.blank_matches_anything && me == RawBallotMarking::Blank) {
                    score = score + 1;
                }
            }
        }
        assert(markings@.take(markings@.len() as int) =~= markings@);
        score
    }
}

/// The scores of the groups of matches.
pub open spec fn scores_of(best: Seq<SearchMatchesWithSameScore>) -> Seq<usize> {
    best.map_values(|m: SearchMatchesWithSameScore| m.score)
}

/// The number of leading groups with a higher score.
pub open spec fn groups_above(best: Seq<SearchMatchesWithSameScore>, score: usize, n: int) -> bool {
    0 <= n <= best.len() && (forall|i: int| 0 <= i < n ==> (#[trigger] best[i]).score > score) && (n < best.len()
        ==> best[n].score <= score)
}

impl FindMyVoteResult {
    /// Find the group a hit with the given score belongs in, making a new group if it is a new
    /// score good enough to keep (dropping the worst group if there are then too many), or noting
    /// it as truncated if its group is full. The index of the group to add it to, if any.
    pub fn find_where_to_insert(&mut self, score: usize) -> (res: Option<usize>)
        requires
            old(self).best@.len() <= MAX_SCORES_WANTED,
            forall|i: int| 0 <= i < old(self).best@.len() ==> (#[trigger] old(self).best@[i]).truncated < usize::MAX,
        ensures
            final(self).best@.len() <= MAX_SCORES_WANTED,
            ({
                let old_best = old(self).best@;
                let n = choose|n: int| groups_above(old_best, score, n);
                &&& groups_above(old_best, score, n)
                &&& if n >= MAX_SCORES_WANTED {
                    res is None && final(self).best@ == old_best
                } else if n < old_best.len() && old_best[n].score == score {
                    if old_best[n].hits@.len() == MAX_HITS_PER_SCORE_WANTED {
                        &&& res is None
                        &&& final(self).best@ == old_best.update(
                            n,
                            SearchMatchesWithSameScore {
                                score: old_best[n].score,
                                hits: old_best[n].hits,
                                truncated: (old_best[n].truncated + 1) as usize,
                            },
                        )
                    } else {
                        res == Some(n as usize) && final(self).best@ == old_best
                    }
                } else {
                    &&& res == Some(n as usize)
                    &&& final(self).best@.len() == (if old_best.len() + 1 > MAX_SCORES_WANTED {
                        MAX_SCORES_WANTED as int
                    } else {
                        old_best.len() + 1int
                    })
                    &&& final(self).best@.take(n) == old_best.take(n)
                    &&& final(self).best@[n].score == score
                    &&& final(self).best@[n].hits@.len() == 0
                    &&& final(self).best@[n].truncated == 0
                    &&& forall|i: int| n < i < final(self).best@.len() ==> #[trigger] final(self).best@[i] == old_best[i - 1]
                }
            }),
    {
        let mut skip_over: usize = 0;
        while skip_over < self.best.len() && self.best[skip_over].score > score
            invariant
                skip_over <= self.best@.len(),
                self.best@ == old(self).best@,
                forall|i: int| 0 <= i < skip_over ==> (#[trigger] self.best@[i]).score > score,
            decreases self.best@.len() - skip_over,
        {
            skip_over = skip_over + 1;
        }
        let ghost old_best = self.best@;
        assert(groups_above(old_best, score, skip_over as int));
        assert forall|m: int| groups_above(old_best, score, m) implies m == skip_over by {
            if m < skip_over {
                assert(old_best[m].score <= score);
            } else if m > skip_over {
                assert(old_best[skip_over as int].score > score);
            }
        }
        if skip_over >= MAX_SCORES_WANTED {
            None
        } else if skip_over < self.best.len() && self.best[skip_over].score == score {
            if self.best[skip_over].hits.len() == MAX_HITS_PER_SCORE_WANTED {
                let mut group = self.best.remove(skip_over);
                group.truncated = group.truncated + 1;
                self.best.insert(skip_over, group);
                None
            } else {
                Some(skip_over)
            }
        } else {
            self.best.insert(skip_over, SearchMatchesWithSameScore { score, hits: Vec::new(), truncated: 0 });
            self.best.truncate(MAX_SCORES_WANTED);
            Some(skip_over)
        }
    }
}


/// A group of matches as plain values: its score, its hits and how many hits it left out.
pub open spec fn group_view(g: SearchMatchesWithSameScore) -> (usize, Seq<FindVoteHit>, usize) {
    (g.score, g.hits@, g.truncated)
}

/// The groups of matches as plain values.
pub open spec fn groups_view(best: Seq<SearchMatchesWithSameScore>) -> Seq<(usize, Seq<FindVoteHit>, usize)> {
    best.map_values(|g: SearchMatchesWithSameScore| group_view(g))
}

/// How many leading groups have a higher score than `score`.
pub open spec fn leading_above(groups: Seq<(usize, Seq<FindVoteHit>, usize)>, score: usize) -> nat
    decreases groups.len(),
{
    if groups.len() == 0 {
        0
    } else if groups[0].0 > score {
        1 + leading_above(groups.skip(1), score)
    } else {
        0
    }
}

/// The groups after a hit with the given score comes: it joins the group with its score if that
/// group is among the best kept and not full (a full group counts it as left out), or starts a
/// new group in score order if that is among the best kept, the worst group dropping out when
/// there are too many; a hit with a score below all the groups kept is ignored.
pub open spec fn with_hit(groups: Seq<(usize, Seq<FindVoteHit>, usize)>, score: usize, hit: FindVoteHit) -> Seq<
    (usize, Seq<FindVoteHit>, usize),
> {
    let n = leading_above(groups, score) as int;
    if n >= MAX_SCORES_WANTED {
        groups
    } else if n < groups.len() && groups[n].0 == score {
        if groups[n].1.len() == MAX_HITS_PER_SCORE_WANTED {
            groups.update(n, (score, groups[n].1, (groups[n].2 + 1) as usize))
        } else {
            groups.update(n, (score, groups[n].1.push(hit), groups[n].2))
        }
    } else {
        let inserted = groups.insert(n, (score, seq![hit], 0usize));
        if inserted.len() > MAX_SCORES_WANTED {
            inserted.take(MAX_SCORES_WANTED as int)
        } else {
            inserted
        }
    }
}

/// The groups of matches found among the papers, each with the hit that stands for it, in turn.
pub open spec fn matches_found(
    query: Seq<RawBallotMarking>,
    blank_matches_anything: bool,
    papers: Seq<Vec<RawBallotMarking>>,
    hits: Seq<FindVoteHit>,
) -> Seq<(usize, Seq<FindVoteHit>, usize)>
    decreases hits.len(),
{
    if hits.len() == 0 || papers.len() == 0 {
        seq![]
    } else {
        with_hit(
            matches_found(query, blank_matches_anything, papers.drop_last(), hits.drop_last()),
            match_score(query, papers.last()@, blank_matches_anything) as usize,
            hits.last(),
        )
    }
}

/// There are no more leading groups with a higher score than groups.
proof fn lemma_leading_above_len(groups: Seq<(usize, Seq<FindVoteHit>, usize)>, score: usize)
    ensures
        leading_above(groups, score) <= groups.len(),
    decreases groups.len(),
{
    if groups.len() > 0 {
        lemma_leading_above_len(groups.skip(1), score);
    }
}

/// The count of leading groups with a higher score is the one `groups_above` speaks of.
proof fn lemma_leading_above(best: Seq<SearchMatchesWithSameScore>, score: usize)
    ensures
        groups_above(best, score, leading_above(groups_view(best), score) as int),
    decreases best.len(),
{
    if best.len() > 0 && best[0].score > score {
        assert(groups_view(best).skip(1) =~= groups_view(best.skip(1)));
        lemma_leading_above(best.skip(1), score);
        let n = leading_above(groups_view(best), score) as int;
        assert forall|i: int| 0 <= i < n implies (#[trigger] best[i]).score > score by {
            if i > 0 {
                assert(best.skip(1)[i - 1] == best[i]);
            }
        }
        if n < best.len() {
            assert(best.skip(1)[n - 1] == best[n]);
        }
    }
}

/// Only one count of leading groups is the one `groups_above` speaks of.
proof fn lemma_groups_above_unique(best: Seq<SearchMatchesWithSameScore>, score: usize, m: int, n: int)
    requires
        groups_above(best, score, m),
        groups_above(best, score, n),
    ensures
        m == n,
{
    if m < n {
        assert(best[m].score <= score);
    } else if m > n {
        assert(best[n].score <= score);
    }
}

/// At most the number kept of groups, each with at most as many left out as there were hits.
proof fn lemma_matches_found_bounded(
    query: Seq<RawBallotMarking>,
    blank_matches_anything: bool,
    papers: Seq<Vec<RawBallotMarking>>,
    hits: Seq<FindVoteHit>,
)
    ensures
        matches_found(query, blank_matches_anything, papers, hits).len() <= MAX_SCORES_WANTED,
        forall|i: int| 0 <= i < matches_found(query, blank_matches_anything, papers, hits).len()
            ==> (#[trigger] matches_found(query, blank_matches_anything, papers, hits)[i]).2 <= hits.len(),
    decreases hits.len(),
{
    if hits.len() > 0 && papers.len() > 0 {
        let before = matches_found(query, blank_matches_anything, papers.drop_last(), hits.drop_last());
        lemma_matches_found_bounded(query, blank_matches_anything, papers.drop_last(), hits.drop_last());
        let score = match_score(query, papers.last()@, blank_matches_anything) as usize;
        let n = leading_above(before, score) as int;
        lemma_leading_above_len(before, score);
        let after = matches_found(query, blank_matches_anything, papers, hits);
        assert(after == with_hit(before, score, hits.last()));
        if n < MAX_SCORES_WANTED && !(n < before.len() && before[n].0 == score) {
            let inserted = before.insert(n, (score, seq![hits.last()], 0usize));
            assert forall|i: int| 0 <= i < inserted.len() implies (#[trigger] inserted[i]).2 <= hits.len() by {
                if i > n {
                    assert(inserted[i] == before[i - 1]);
                }
            }
        }
    }
}

/// The leading groups with a higher score are exactly the first `leading_above` of them.
proof fn lemma_leading_above_groups(groups: Seq<(usize, Seq<FindVoteHit>, usize)>, score: usize)
    ensures
        leading_above(groups, score) <= groups.len(),
        forall|i: int| 0 <= i < leading_above(groups, score) ==> (#[trigger] groups[i]).0 > score,
        leading_above(groups, score) < groups.len() ==> groups[leading_above(groups, score) as int].0 <= score,
    decreases groups.len(),
{
    if groups.len() > 0 && groups[0].0 > score {
        lemma_leading_above_groups(groups.skip(1), score);
        assert forall|i: int| 0 <= i < leading_above(groups, score) implies (#[trigger] groups[i]).0 > score by {
            if i > 0 {
                assert(groups.skip(1)[i - 1] == groups[i]);
            }
        }
        let n = leading_above(groups, score) as int;
        if n < groups.len() {
            assert(groups.skip(1)[n - 1] == groups[n]);
        }
    }
}

/// The matches found are at most the number of scores kept, with different scores, best first,
/// each with at most the number of hits kept.
pub proof fn lemma_matches_found_shape(
    query: Seq<RawBallotMarking>,
    blank_matches_anything: bool,
    papers: Seq<Vec<RawBallotMarking>>,
    hits: Seq<FindVoteHit>,
)
    ensures
        matches_found(query, blank_matches_anything, papers, hits).len() <= MAX_SCORES_WANTED,
        forall|i: int, j: int|
            0 <= i < j < matches_found(query, blank_matches_anything, papers, hits).len() ==> (#[trigger] matches_found(
                query,
                blank_matches_anything,
                papers,
                hits,
            )[i]).0 > (#[trigger] matches_found(query, blank_matches_anything, papers, hits)[j]).0,
        forall|i: int|
            0 <= i < matches_found(query, blank_matches_anything, papers, hits).len() ==> (#[trigger] matches_found(
                query,
                blank_matches_anything,
                papers,
                hits,
            )[i]).1.len() <= MAX_HITS_PER_SCORE_WANTED,
    decreases hits.len(),
{
    if hits.len() > 0 && papers.len() > 0 {
        let before = matches_found(query, blank_matches_anything, papers.drop_last(), hits.drop_last());
        lemma_matches_found_shape(query, blank_matches_anything, papers.drop_last(), hits.drop_last());
        let score = match_score(query, papers.last()@, blank_matches_anything) as usize;
        lemma_leading_above_groups(before, score);
        let n = leading_above(before, score) as int;
        let after = matches_found(query, blank_matches_anything, papers, hits);
        assert(after == with_hit(before, score, hits.last()));
        if n < MAX_SCORES_WANTED && !(n < before.len() && before[n].0 == score) {
            let inserted = before.insert(n, (score, seq![hits.last()], 0usize));
            assert forall|i: int, j: int| 0 <= i < j < inserted.len() implies (#[trigger] inserted[i]).0 > (#[trigger] inserted[j]).0 by {
                if j < n {
                } else if j == n {
                    assert(inserted[i] == before[i]);
                } else if i < n {
                    assert(inserted[j] == before[j - 1]);
                    if j - 1 > n {
                        assert(before[n].0 > before[j - 1].0);
                    }
                } else if i == n {
                    assert(inserted[j] == before[j - 1]);
                    if j - 1 > n {
                        assert(before[n].0 > before[j - 1].0);
                    }
                } else {
                    assert(inserted[i] == before[i - 1]);
                    assert(inserted[j] == before[j - 1]);
                }
            }
            assert forall|i: int| 0 <= i < inserted.len() implies (#[trigger] inserted[i]).1.len() <= MAX_HITS_PER_SCORE_WANTED by {
                if i > n {
                    assert(inserted[i] == before[i - 1]);
                } else if i < n {
                    assert(inserted[i] == before[i]);
                }
            }
        }
    }
}

impl FindMyVoteResult {
    /// Take in one more hit with the given score, in its place among the best matches.
    pub fn add_hit(&mut self, score: usize, hit: FindVoteHit)
        requires
            old(self).best@.len() <= MAX_SCORES_WANTED,
            forall|i: int| 0 <= i < old(self).best@.len() ==> (#[trigger] old(self).best@[i]).truncated < usize::MAX,
        ensures
            groups_view(final(self).best@) == with_hit(groups_view(old(self).best@), score, hit),
    {
        let ghost old_best = self.best@;
        let ghost n = leading_above(groups_view(old_best), score) as int;
        proof {
            lemma_leading_above(old_best, score);
            let m = choose|m: int| groups_above(old_best, score, m);
            lemma_groups_above_unique(old_best, score, m, n);
        }
        let place = self.find_where_to_insert(score);
        let ghost mid = self.best@;
        match place {
            Some(k) => {
                let mut group = self.best.remove(k);
                group.hits.push(hit);
                self.best.insert(k, group);
                proof {
                    assert(self.best@ =~= mid.update(k as int, group));
                    if n < old_best.len() && old_best[n].score == score {
                        assert(groups_view(self.best@) =~= with_hit(groups_view(old_best), score, hit));
                    } else {
                        let expected = with_hit(groups_view(old_best), score, hit);
                        assert(groups_view(self.best@).len() == expected.len());
                        assert forall|i: int| 0 <= i < expected.len() implies #[trigger] groups_view(self.best@)[i] == expected[i] by {
                            if i < n {
                                assert(mid.take(n)[i] == old_best.take(n)[i]);
                            } else if i > n {
                                assert(mid[i] == old_best[i - 1]);
                            } else {
                                assert(group.hits@ =~= seq![hit]);
                            }
                        }
                        assert(groups_view(self.best@) =~= expected);
                    }
                }
            },
            None => {
                assert(groups_view(self.best@) =~= with_hit(groups_view(old_best), score, hit));
            },
        }
    }

    /// The best matches to the query among the papers, each given by its below the line markings
    /// with the hit that stands for it, in the order given.
    pub fn compute(query: &FindMyVoteQuery, papers: &Vec<Vec<RawBallotMarking>>, hits: Vec<FindVoteHit>) -> (res: Self)
        requires
            papers.len() == hits.len(),
        ensures
            groups_view(res.best@) == matches_found(
                split_on_commas(query.query@).map_values(|p: Seq<char>| parse_marking_spec(p)),
                query.blank_matches_anything,
                papers@,
                hits@,
            ),
            res.best@.len() <= MAX_SCORES_WANTED,
            forall|i: int, j: int| 0 <= i < j < res.best@.len() ==> (#[trigger] res.best@[i]).score > (#[trigger] res.best@[j]).score,
            forall|i: int| 0 <= i < res.best@.len() ==> (#[trigger] res.best@[i]).hits@.len() <= MAX_HITS_PER_SCORE_WANTED,
    {
        let my_query = query.parse_query();
        let ghost all_hits = hits@;
        let mut hits = hits;
        let mut res = FindMyVoteResult { best: Vec::new() };
        let mut j: usize = 0;
        while j < papers.len()
            invariant
                j <= papers.len(),
                papers.len() == all_hits.len(),
                hits@ == all_hits.skip(j as int),
                groups_view(res.best@) == matches_found(
                    my_query@,
                    query.blank_matches_anything,
                    papers@.take(j as int),
                    all_hits.take(j as int),
                ),
            decreases papers.len() - j,
        {
            proof {
                lemma_matches_found_bounded(my_query@, query.blank_matches_anything, papers@.take(j as int), all_hits.take(j as int));
                assert forall|i: int| 0 <= i < res.best@.len() implies (#[trigger] res.best@[i]).truncated < usize::MAX by {
                    assert(groups_view(res.best@)[i].2 == res.best@[i].truncated);
                }
                assert(papers@.take(j + 1).drop_last() =~= papers@.take(j as int));
                assert(all_hits.take(j + 1).drop_last() =~= all_hits.take(j as int));
            }
            let score = query.score(&my_query, papers[j].as_slice());
            let hit = hits.remove(0);
            assert(hits@ =~= all_hits.skip(j + 1));
            res.add_hit(score, hit);
            j = j + 1;
        }
        assert(papers@.take(papers@.len() as int) =~= papers@);
        assert(all_hits.take(all_hits.len() as int) =~= all_hits);
        proof {
            lemma_matches_found_shape(my_query@, query.blank_matches_anything, papers@, all_hits);
            let g = groups_view(res.best@);
            assert forall|i: int, j: int| 0 <= i < j < res.best@.len() implies (#[trigger] res.best@[i]).score > (#[trigger] res.best@[j]).score by {
                assert(g[i].0 > g[j].0);
            }
            assert forall|i: int| 0 <= i < res.best@.len() implies (#[trigger] res.best@[i]).hits@.len() <= MAX_HITS_PER_SCORE_WANTED by {
                assert(g[i].1.len() <= MAX_HITS_PER_SCORE_WANTED);
            }
        }
        res
    }
}

} // verus!
