//! Resolving ties by looking back at the tallies of earlier counts, latest first.

use vstd::prelude::*;
use crate::ballot_metadata::CandidateIndex;
use crate::distribution_of_preferences_transcript::{SingleCount, Transcript};
use crate::tally::TallyValue;
use crate::tie_resolution::TieResolutionGranularityNeeded;
use crate::util::{sort_by_key, sorted_by_key, all_have_keys, lemma_swap_multiset};

verus! {

/// The tallies of each candidate at the end of a count.
pub open spec fn tallies_of<Tally>(c: SingleCount<Tally>) -> Seq<Tally> {
    c.status.tallies.candidate@
}

/// Whether a count is looked at: every count is, unless only counts that finish an action are.
pub open spec fn considered<Tally>(c: SingleCount<Tally>, just_consider_major_counts: bool) -> bool {
    c.reason_completed || !just_consider_major_counts
}

/// Every tied candidate has a tally at every count.
pub open spec fn tallies_cover<Tally>(counts: Seq<SingleCount<Tally>>, tied: Seq<CandidateIndex>) -> bool {
    forall|k: int, i: int|
        0 <= k < counts.len() && 0 <= i < tied.len() ==> (#[trigger] tied[i]).0 < (#[trigger] counts[k]).status.tallies.candidate@.len()
}

/// The number a candidate's tally stands for.
pub open spec fn value_of<T: TallyValue>(tallies: Seq<T>, c: CandidateIndex) -> nat {
    tallies[c.0 as int].value()
}

/// No two tied candidates have the same tally.
pub open spec fn all_different<T: TallyValue>(tallies: Seq<T>, tied: Seq<CandidateIndex>) -> bool {
    forall|i: int, j: int| 0 <= i < j < tied.len() ==> value_of(tallies, #[trigger] tied[i]) != value_of(tallies, #[trigger] tied[j])
}

/// The condition that no two tied candidates have the same tally.
pub open spec fn all_different_pred<T: TallyValue>(tied: Seq<CandidateIndex>) -> spec_fn(Seq<T>) -> bool {
    |ts: Seq<T>| all_different(ts, tied)
}

/// What resolving a tie by the latest count with all tallies different does: `after` is `before`
/// sorted by the tallies of that count if there is one (and `resolved`), else unchanged.
pub open spec fn all_different_outcome<Tally: TallyValue>(
    counts: Seq<SingleCount<Tally>>,
    before: Seq<CandidateIndex>,
    after: Seq<CandidateIndex>,
    just_consider_major_counts: bool,
    resolved: bool,
) -> bool {
    match latest_count(counts, counts.len() as int, just_consider_major_counts, all_different_pred(before)) {
        Some(k) => {
            &&& resolved
            &&& after.to_multiset() == before.to_multiset()
            &&& after.len() == before.len()
            &&& sorted_by_key(after, tallies_of(counts[k]))
        },
        None => !resolved && after == before,
    }
}

/// The latest of the first `n` counts that is considered and whose tallies satisfy `pred`.
pub open spec fn latest_count<Tally>(
    counts: Seq<SingleCount<Tally>>,
    n: int,
    just_consider_major_counts: bool,
    pred: spec_fn(Seq<Tally>) -> bool,
) -> Option<int>
    decreases n,
{
    if n <= 0 {
        None
    } else if considered(counts[n - 1], just_consider_major_counts) && pred(tallies_of(counts[n - 1])) {
        Some(n - 1)
    } else {
        latest_count(counts, n - 1, just_consider_major_counts, pred)
    }
}

/// The latest count found is one of the counts, and satisfies the condition.
pub proof fn lemma_latest_count<Tally>(
    counts: Seq<SingleCount<Tally>>,
    n: int,
    just_consider_major_counts: bool,
    pred: spec_fn(Seq<Tally>) -> bool,
)
    requires
        n <= counts.len(),
    ensures
        latest_count(counts, n, just_consider_major_counts, pred) matches Some(k) ==> 0 <= k < n && considered(
            counts[k],
            just_consider_major_counts,
        ) && pred(tallies_of(counts[k])),
    decreases n,
{
    if n > 0 {
        lemma_latest_count(counts, n - 1, just_consider_major_counts, pred);
    }
}

/// Looking at every count (not just those that finish an action), the latest count found is the
/// latest of all the first `n` counts whose tallies satisfy the condition; looking only at counts
/// that finish an action, it is the latest of those.
pub proof fn lemma_latest_count_is_latest<Tally>(
    counts: Seq<SingleCount<Tally>>,
    n: int,
    just_consider_major_counts: bool,
    pred: spec_fn(Seq<Tally>) -> bool,
)
    requires
        n <= counts.len(),
    ensures
        match latest_count(counts, n, just_consider_major_counts, pred) {
            Some(k) => {
                &&& 0 <= k < n
                &&& pred(tallies_of(counts[k]))
                &&& (just_consider_major_counts ==> counts[k].reason_completed)
                &&& forall|j: int|
                    k < j < n && (!just_consider_major_counts || counts[j].reason_completed) ==> !pred(tallies_of(#[trigger] counts[j]))
            },
            None => forall|j: int|
                0 <= j < n && (!just_consider_major_counts || counts[j].reason_completed) ==> !pred(tallies_of(#[trigger] counts[j])),
        },
    decreases n,
{
    if n > 0 {
        lemma_latest_count_is_latest(counts, n - 1, just_consider_major_counts, pred);
    }
}

/// Countback over every count: when the tied candidates' tallies all differ at count `k` and at no
/// later count (finished or not), the tie is resolved, and the candidates end ordered low to high
/// by their tallies at count `k`.
pub proof fn lemma_countback_uses_latest_differing_count<Tally: TallyValue>(
    counts: Seq<SingleCount<Tally>>,
    before: Seq<CandidateIndex>,
    after: Seq<CandidateIndex>,
    resolved: bool,
    k: int,
)
    requires
        all_different_outcome(counts, before, after, false, resolved),
        0 <= k < counts.len(),
        all_different(tallies_of(counts[k]), before),
        forall|j: int| k < j < counts.len() ==> !all_different(tallies_of(#[trigger] counts[j]), before),
    ensures
        resolved,
        after.to_multiset() == before.to_multiset(),
        sorted_by_key(after, tallies_of(counts[k])),
{
    let pred = all_different_pred::<Tally>(before);
    lemma_latest_count_is_latest(counts, counts.len() as int, false, pred);
    match latest_count(counts, counts.len() as int, false, pred) {
        Some(m) => {
            if m < k {
                assert(pred(tallies_of(counts[k])));
            } else if m > k {
                assert(!all_different(tallies_of(counts[m]), before));
            }
        },
        None => {
            assert(pred(tallies_of(counts[k])));
        },
    }
}

/// Countback over counts that finish an action: when the tied candidates' tallies all differ at
/// count `k`, which finishes an action, and at no later such count, the tie is resolved, and the
/// candidates end ordered low to high by their tallies at count `k`.
pub proof fn lemma_countback_uses_latest_differing_major_count<Tally: TallyValue>(
    counts: Seq<SingleCount<Tally>>,
    before: Seq<CandidateIndex>,
    after: Seq<CandidateIndex>,
    resolved: bool,
    k: int,
)
    requires
        all_different_outcome(counts, before, after, true, resolved),
        0 <= k < counts.len(),
        counts[k].reason_completed,
        all_different(tallies_of(counts[k]), before),
        forall|j: int| k < j < counts.len() && counts[j].reason_completed ==> !all_different(tallies_of(#[trigger] counts[j]), before),
    ensures
        resolved,
        after.to_multiset() == before.to_multiset(),
        sorted_by_key(after, tallies_of(counts[k])),
{
    let pred = all_different_pred::<Tally>(before);
    lemma_latest_count_is_latest(counts, counts.len() as int, true, pred);
    match latest_count(counts, counts.len() as int, true, pred) {
        Some(m) => {
            if m < k {
                assert(pred(tallies_of(counts[k])));
            } else if m > k {
                assert(!all_different(tallies_of(counts[m]), before));
            }
        },
        None => {
            assert(pred(tallies_of(counts[k])));
        },
    }
}

/// True iff no two tied candidates have the same tally.
fn tallies_all_different<T: TallyValue>(tallies: &Vec<T>, tied: &Vec<CandidateIndex>) -> (res: bool)
    requires
        all_have_keys(tied@, tallies@),
    ensures
        res == all_different(tallies@, tied@),
{
    for i in 0..tied.len()
        invariant
            all_have_keys(tied@, tallies@),
            forall|a: int, b: int| 0 <= a < b < tied@.len() && a < i ==> value_of(tallies@, #[trigger] tied@[a]) != value_of(
                tallies@,
                #[trigger] tied@[b],
            ),
    {
        for j in i + 1..tied.len()
            invariant
                all_have_keys(tied@, tallies@),
                i < tied@.len(),
                forall|a: int, b: int|
                    0 <= a < b < tied@.len() && a < i ==> value_of(tallies@, #[trigger] tied@[a]) != value_of(
                        tallies@,
                        #[trigger] tied@[b],
                    ),
                forall|b: int| i < b < j ==> value_of(tallies@, tied@[i as int]) != value_of(tallies@, #[trigger] tied@[b]),
        {
            assert(tied@[i as int].0 < tallies@.len());
            assert(tied@[j as int].0 < tallies@.len());
            if tallies[tied[i].0].is_same(&tallies[tied[j].0]) {
                assert(value_of(tallies@, tied@[i as int]) == value_of(tallies@, tied@[j as int]));
                return false;
            }
        }
    }
    true
}

/// Sort candidates low to high by the tallies of the latest considered count at which all their
/// tallies were different. `true` iff there was such a count; else the candidates are untouched.
#[verifier::loop_isolation(false)]
pub fn resolve_ties_require_all_different<Tally: TallyValue>(
    tied_candidates: &mut Vec<CandidateIndex>,
    transcript: &Transcript<Tally>,
    just_consider_major_counts: bool,
) -> (res: bool)
    requires
        tallies_cover(transcript.counts@, old(tied_candidates)@),
    ensures
        all_different_outcome(transcript.counts@, old(tied_candidates)@, final(tied_candidates)@, just_consider_major_counts, res),
        final(tied_candidates)@.to_multiset() == old(tied_candidates)@.to_multiset(),
        final(tied_candidates)@.len() == old(tied_candidates)@.len(),
{
    let ghost orig = tied_candidates@;
    let ghost pred = all_different_pred::<Tally>(orig);
    let mut k = transcript.counts.len();
    while k > 0
        invariant
            k <= transcript.counts@.len(),
            tied_candidates@ == orig,
            tallies_cover(transcript.counts@, orig),
            latest_count(transcript.counts@, transcript.counts@.len() as int, just_consider_major_counts, pred)
                == latest_count(transcript.counts@, k as int, just_consider_major_counts, pred),
        decreases k,
    {
        let count = &transcript.counts[k - 1];
        assert(transcript.counts@[k - 1] == *count);
        if count.reason_completed || !just_consider_major_counts {
            let tallies = &count.status.tallies.candidate;
            assert(all_have_keys(tied_candidates@, tallies@)) by {
                assert forall|i: int| 0 <= i < tied_candidates@.len() implies (#[trigger] tied_candidates@[i]).0 < tallies@.len() by {
                    assert(transcript.counts@[k - 1] == *count);
                }
            }
            if tallies_all_different(tallies, tied_candidates) {
                assert(pred(tallies_of(transcript.counts@[k - 1])));
                sort_by_key(tied_candidates, tallies);
                return true;
            }
            assert(!pred(tallies_of(transcript.counts@[k - 1])));
        }
        k = k - 1;
    }
    false
}

/// How many of the candidates have a tally below `t`.
pub open spec fn count_below<T: TallyValue>(s: Seq<CandidateIndex>, tallies: Seq<T>, t: nat) -> nat
    decreases s.len(),
{
    if s.len() == 0 {
        0
    } else {
        count_below(s.drop_last(), tallies, t) + if value_of(tallies, s.last()) < t {
            1nat
        } else {
            0nat
        }
    }
}

/// Exactly `m` of the tied candidates are strictly below one of the tied candidates (`j`): the
/// lowest `m` are uniquely determined.
pub open spec fn separates_at<T: TallyValue>(tallies: Seq<T>, tied: Seq<CandidateIndex>, m: nat, j: int) -> bool {
    0 <= j < tied.len() && count_below(tied, tallies, value_of(tallies, tied[j])) == m
}

/// The tally the lowest `m` are below, when they are uniquely determined.
pub open spec fn threshold<T: TallyValue>(tallies: Seq<T>, tied: Seq<CandidateIndex>, m: nat) -> nat {
    value_of(tallies, tied[choose|j: int| separates_at(tallies, tied, m, j)])
}

/// Moving those below `t` to the front by swapping, in the order the loop of
/// `resolve_ties_require_unique_minimum_granularity` does, after looking at the first `i`:
/// the candidates and the number moved so far.
pub open spec fn move_lowest<T: TallyValue>(s: Seq<CandidateIndex>, tallies: Seq<T>, t: nat, i: int) -> (Seq<CandidateIndex>, int)
    decreases i,
{
    if i <= 0 {
        (s, 0)
    } else {
        let (p, found) = move_lowest(s, tallies, t, i - 1);
        if value_of(tallies, p[i - 1]) < t {
            (p.update(i - 1, p[found]).update(found, p[i - 1]), found + 1)
        } else {
            (p, found)
        }
    }
}

/// How many of the lowest must be separated from the rest, if the granularity can be met that
/// way at all; `Some(0)` if nothing needs doing.
pub open spec fn unique_minimum_needed(granularity: TieResolutionGranularityNeeded, len: nat) -> Option<nat> {
    match granularity {
        TieResolutionGranularityNeeded::LowestSeparated(n) => if n < len {
            Some(n as nat)
        } else if n == len {
            Some(0)
        } else {
            None
        },
        TieResolutionGranularityNeeded::Total => if len == 2 {
            Some(1)
        } else {
            None
        },
    }
}

/// Separate the lowest candidates from the rest using the latest considered count at which the
/// required number of lowest candidates all had tallies strictly lower than the rest.
/// `true` iff the ties are resolved to the required granularity.
#[verifier::loop_isolation(false)]
pub fn resolve_ties_require_unique_minimum_granularity<Tally: TallyValue>(
    tied_candidates: &mut Vec<CandidateIndex>,
    transcript: &Transcript<Tally>,
    granularity: TieResolutionGranularityNeeded,
    just_consider_major_counts: bool,
) -> (res: bool)
    requires
        tallies_cover(transcript.counts@, old(tied_candidates)@),
        !(granularity == TieResolutionGranularityNeeded::LowestSeparated(0) && old(tied_candidates)@.len() > 0),
    ensures
        unique_minimum_outcome(
            transcript.counts@,
            old(tied_candidates)@,
            final(tied_candidates)@,
            granularity,
            just_consider_major_counts,
            res,
        ),
        final(tied_candidates)@.to_multiset() == old(tied_candidates)@.to_multiset(),
        final(tied_candidates)@.len() == old(tied_candidates)@.len(),
{
    let ghost orig = tied_candidates@;
    let len = tied_candidates.len();
    let unique_min: usize = match granularity {
        TieResolutionGranularityNeeded::LowestSeparated(n) => {
            if n < len {
                n
            } else if n == len {
                return true;
            } else {
                return false;
            }
        },
        TieResolutionGranularityNeeded::Total => {
            if len == 2 {
                1
            } else {
                return false;
            }
        },
    };
    let ghost m = unique_min as nat;
    let ghost pred = separates_pred::<Tally>(orig, m);
    let mut k = transcript.counts.len();
    while k > 0
        invariant
            k <= transcript.counts@.len(),
            tied_candidates@ == orig,
            0 < unique_min < orig.len(),
            latest_count(transcript.counts@, transcript.counts@.len() as int, just_consider_major_counts, pred)
                == latest_count(transcript.counts@, k as int, just_consider_major_counts, pred),
        decreases k,
    {
        let count = &transcript.counts[k - 1];
        if count.reason_completed || !just_consider_major_counts {
            let tallies = &count.status.tallies.candidate;
            assert(transcript.counts@[k - 1] == *count);
            assert(all_have_keys(tied_candidates@, tallies@)) by {
                assert forall|i: int| 0 <= i < tied_candidates@.len() implies (#[trigger] tied_candidates@[i]).0 < tallies@.len() by {
                    assert(transcript.counts@[k - 1] == *count);
                }
            }
            match find_separation(tallies, tied_candidates, unique_min) {
                None => {},
                Some(j) => {
                    let ghost ts = tallies@;
                    let t = tallies[tied_candidates[j].0];
                    proof {
                        assert(pred(ts));
                        let jc = choose|jj: int| separates_at(ts, orig, m, jj);
                        lemma_separation_unique(ts, orig, m, j as int, jc);
                    }
                    move_lowest_exec(tied_candidates, tallies, t, unique_min);
                    return true;
                },
            }
        }
        k = k - 1;
    }
    false
}

/// The condition that the lowest `m` of the tied candidates are uniquely determined.
pub open spec fn separates_pred<T: TallyValue>(tied: Seq<CandidateIndex>, m: nat) -> spec_fn(Seq<T>) -> bool {
    |ts: Seq<T>| exists|j: int| separates_at(ts, tied, m, j)
}

/// What separating the lowest candidates by the latest count at which they were uniquely lowest
/// does.
pub open spec fn unique_minimum_outcome<Tally: TallyValue>(
    counts: Seq<SingleCount<Tally>>,
    before: Seq<CandidateIndex>,
    after: Seq<CandidateIndex>,
    granularity: TieResolutionGranularityNeeded,
    just_consider_major_counts: bool,
    resolved: bool,
) -> bool {
    match unique_minimum_needed(granularity, before.len()) {
        None => !resolved && after == before,
        Some(m) => if m == 0 {
            resolved && after == before
        } else {
            match latest_count(counts, counts.len() as int, just_consider_major_counts, separates_pred(before, m)) {
                None => !resolved && after == before,
                Some(k) => {
                    let ts = tallies_of(counts[k]);
                    let t = threshold(ts, before, m);
                    &&& resolved
                    &&& after == move_lowest(before, ts, t, before.len() as int).0
                    &&& forall|i: int| 0 <= i < m ==> value_of(ts, #[trigger] after[i]) < t
                    &&& forall|i: int| m <= i < after.len() ==> value_of(ts, #[trigger] after[i]) >= t
                },
            }
        },
    }
}

/// If two candidates each have exactly `m` below them, they have the same tally.
proof fn lemma_separation_unique<T: TallyValue>(tallies: Seq<T>, tied: Seq<CandidateIndex>, m: nat, a: int, b: int)
    requires
        separates_at(tallies, tied, m, a),
        separates_at(tallies, tied, m, b),
    ensures
        value_of(tallies, tied[a]) == value_of(tallies, tied[b]),
{
    let va = value_of(tallies, tied[a]);
    let vb = value_of(tallies, tied[b]);
    if va < vb {
        lemma_count_below_strict(tied, tallies, va, vb, a);
    } else if vb < va {
        lemma_count_below_strict(tied, tallies, vb, va, b);
    }
}

/// Raising the bar past a candidate's tally counts that candidate too.
proof fn lemma_count_below_strict<T: TallyValue>(s: Seq<CandidateIndex>, tallies: Seq<T>, lo: nat, hi: nat, a: int)
    requires
        lo < hi,
        0 <= a < s.len(),
        value_of(tallies, s[a]) == lo,
    ensures
        count_below(s, tallies, lo) < count_below(s, tallies, hi),
    decreases s.len(),
{
    lemma_count_below_monotone(s.drop_last(), tallies, lo, hi);
    if a < s.len() - 1 {
        assert(s.drop_last()[a] == s[a]);
        lemma_count_below_strict(s.drop_last(), tallies, lo, hi, a);
    }
}

/// A higher bar counts at least as many.
proof fn lemma_count_below_monotone<T: TallyValue>(s: Seq<CandidateIndex>, tallies: Seq<T>, lo: nat, hi: nat)
    requires
        lo <= hi,
    ensures
        count_below(s, tallies, lo) <= count_below(s, tallies, hi),
    decreases s.len(),
{
    if s.len() > 0 {
        lemma_count_below_monotone(s.drop_last(), tallies, lo, hi);
    }
}

/// How many candidates have a tally below `t`.
fn count_below_exec<T: TallyValue>(tallies: &Vec<T>, tied: &Vec<CandidateIndex>, t: &T) -> (res: usize)
    requires
        all_have_keys(tied@, tallies@),
    ensures
        res == count_below(tied@, tallies@, t.value()),
{
    let mut res: usize = 0;
    for i in 0..tied.len()
        invariant
            all_have_keys(tied@, tallies@),
            res == count_below(tied@.take(i as int), tallies@, t.value()),
            res <= i,
    {
        assert(tied@.take(i + 1).drop_last() =~= tied@.take(i as int));
        assert(tied@[i as int].0 < tallies@.len());
        if tallies[tied[i].0].is_less(t) {
            res = res + 1;
        }
    }
    assert(tied@.take(tied@.len() as int) =~= tied@);
    res
}

/// A candidate with exactly `m` candidates below it, if any.
fn find_separation<T: TallyValue>(tallies: &Vec<T>, tied: &Vec<CandidateIndex>, m: usize) -> (res: Option<usize>)
    requires
        all_have_keys(tied@, tallies@),
    ensures
        match res {
            Some(j) => separates_at(tallies@, tied@, m as nat, j as int),
            None => !exists|j: int| separates_at(tallies@, tied@, m as nat, j),
        },
{
    for j in 0..tied.len()
        invariant
            all_have_keys(tied@, tallies@),
            forall|jj: int| 0 <= jj < j ==> !separates_at(tallies@, tied@, m as nat, jj),
    {
        assert(tied@[j as int].0 < tallies@.len());
        let t = &tallies[tied[j].0];
        if count_below_exec(tallies, tied, t) == m {
            return Some(j);
        }
    }
    None
}

/// Move those below `t` to the front, by swaps, in the order `move_lowest` describes.
#[verifier::loop_isolation(false)]
fn move_lowest_exec<T: TallyValue>(tied: &mut Vec<CandidateIndex>, tallies: &Vec<T>, t: T, m: usize)
    requires
        all_have_keys(old(tied)@, tallies@),
        count_below(old(tied)@, tallies@, t.value()) == m,
    ensures
        final(tied)@ == move_lowest(old(tied)@, tallies@, t.value(), old(tied)@.len() as int).0,
        forall|i: int| 0 <= i < m ==> value_of(tallies@, #[trigger] final(tied)@[i]) < t.value(),
        forall|i: int| m <= i < final(tied)@.len() ==> value_of(tallies@, #[trigger] final(tied)@[i]) >= t.value(),
        final(tied)@.to_multiset() == old(tied)@.to_multiset(),
        final(tied)@.len() == old(tied)@.len(),
{
    let ghost orig = tied@;
    let mut found: usize = 0;
    for i in 0..tied.len()
        invariant
            tied@.len() == orig.len(),
            all_have_keys(tied@, tallies@),
            (tied@, found as int) == move_lowest(orig, tallies@, t.value(), i as int),
            found == count_below(orig.take(i as int), tallies@, t.value()),
            found <= i,
            tied@.to_multiset() == orig.to_multiset(),
            forall|a: int| i <= a < orig.len() ==> tied@[a] == orig[a],
            forall|a: int| 0 <= a < found ==> value_of(tallies@, #[trigger] tied@[a]) < t.value(),
            forall|a: int| found <= a < i ==> value_of(tallies@, #[trigger] tied@[a]) >= t.value(),
    {
        assert(orig.take(i + 1).drop_last() =~= orig.take(i as int));
        assert(orig.take(i + 1).last() == orig[i as int]);
        assert(tied@[i as int].0 < tallies@.len());
        if tallies[tied[i].0].is_less(&t) {
            let a = tied[i];
            let b = tied[found];
            proof {
                crate::util::lemma_swap_multiset(tied@, i as int, found as int);
            }
            tied.set(i, b);
            tied.set(found, a);
            found = found + 1;
        }
    }
    assert(orig.take(orig.len() as int) =~= orig);
}

} // verus!

verus! {

/// The condition that not all the tied candidates have the same tally.
pub open spec fn some_different_pred<T: TallyValue>(tied: Seq<CandidateIndex>) -> spec_fn(Seq<T>) -> bool {
    |ts: Seq<T>| some_different(ts, tied)
}

/// Not all the tied candidates have the same tally.
pub open spec fn some_different<T: TallyValue>(tallies: Seq<T>, tied: Seq<CandidateIndex>) -> bool {
    exists|i: int, j: int|
        0 <= i < tied.len() && 0 <= j < tied.len() && value_of(tallies, #[trigger] tied[i]) != value_of(tallies, #[trigger] tied[j])
}

/// The lowest tally among the candidates (0 if there are none).
pub open spec fn min_value<T: TallyValue>(s: Seq<CandidateIndex>, tallies: Seq<T>) -> nat
    decreases s.len(),
{
    if s.len() == 0 {
        0
    } else if s.len() == 1 {
        value_of(tallies, s[0])
    } else {
        let m = min_value(s.drop_last(), tallies);
        let v = value_of(tallies, s.last());
        if v < m {
            v
        } else {
            m
        }
    }
}

/// The candidates whose tally is (`keep`) or is not (`!keep`) `v`, in order.
pub open spec fn with_value<T: TallyValue>(s: Seq<CandidateIndex>, tallies: Seq<T>, v: nat, keep: bool) -> Seq<CandidateIndex>
    decreases s.len(),
{
    if s.len() == 0 {
        Seq::empty()
    } else if (value_of(tallies, s.last()) == v) == keep {
        with_value(s.drop_last(), tallies, v, keep).push(s.last())
    } else {
        with_value(s.drop_last(), tallies, v, keep)
    }
}

/// A range of positions, and the granularity it still needs.
pub type UnresolvedRange = (usize, usize, TieResolutionGranularityNeeded);

/// The ranges moved along by `upto` positions.
pub open spec fn shifted(rs: Seq<(int, int, TieResolutionGranularityNeeded)>, upto: int) -> Seq<(int, int, TieResolutionGranularityNeeded)> {
    rs.map_values(|r: (int, int, TieResolutionGranularityNeeded)| (r.0 + upto, r.1 + upto, r.2))
}

/// The ranges as integers.
pub open spec fn ranges_view(rs: Seq<UnresolvedRange>) -> Seq<(int, int, TieResolutionGranularityNeeded)> {
    rs.map_values(|r: UnresolvedRange| (r.0 as int, r.1 as int, r.2))
}

/// The granularity a group starting `upto` positions in still needs, if any: all of it when a
/// total order is needed; when the lowest `loc` must be separated, only a group that straddles
/// position `loc`, and then only at that position.
pub open spec fn group_granularity(granularity: TieResolutionGranularityNeeded, upto: int, len: int) -> Option<TieResolutionGranularityNeeded> {
    match granularity {
        TieResolutionGranularityNeeded::Total => Some(TieResolutionGranularityNeeded::Total),
        TieResolutionGranularityNeeded::LowestSeparated(loc) => if upto < loc < upto + len {
            Some(TieResolutionGranularityNeeded::LowestSeparated((loc - upto) as usize))
        } else {
            None
        },
    }
}

/// Order the candidates by tally, lowest group first, keeping their order within a group, and
/// resolve each group of more than one that still matters recursively: the candidates in their
/// new order, and the ranges left unresolved. `bound` is the size of the tie being resolved, which
/// every group is smaller than.
pub open spec fn split_groups<Tally: TallyValue>(
    counts: Seq<SingleCount<Tally>>,
    s: Seq<CandidateIndex>,
    tallies: Seq<Tally>,
    granularity: TieResolutionGranularityNeeded,
    just_consider_major_counts: bool,
    upto: int,
    bound: nat,
) -> (Seq<CandidateIndex>, Seq<(int, int, TieResolutionGranularityNeeded)>)
    decreases bound, 0nat, s.len(),
{
    if s.len() == 0 {
        (Seq::empty(), Seq::empty())
    } else {
        let v = min_value(s, tallies);
        let g = with_value(s, tallies, v, true);
        let rest = with_value(s, tallies, v, false);
        let (g2, rg) = if g.len() > 1 && g.len() < bound {
            match group_granularity(granularity, upto, g.len() as int) {
                Some(gg) => any_different_resolution(counts, g, gg, just_consider_major_counts),
                None => (g, Seq::empty()),
            }
        } else {
            (g, Seq::empty())
        };
        let (r2, rr) = if rest.len() < s.len() {
            split_groups(counts, rest, tallies, granularity, just_consider_major_counts, upto + g.len(), bound)
        } else {
            (rest, Seq::empty())
        };
        (g2 + r2, shifted(rg, upto) + rr)
    }
}

/// Resolve a tie by the latest considered count at which not all the tied candidates had the same
/// tally, using any difference as far as it goes: the candidates in order, and the ranges left
/// unresolved with the granularity they still need.
pub open spec fn any_different_resolution<Tally: TallyValue>(
    counts: Seq<SingleCount<Tally>>,
    tied: Seq<CandidateIndex>,
    granularity: TieResolutionGranularityNeeded,
    just_consider_major_counts: bool,
) -> (Seq<CandidateIndex>, Seq<(int, int, TieResolutionGranularityNeeded)>)
    decreases tied.len(), 1nat, 0nat,
{
    match latest_count(counts, counts.len() as int, just_consider_major_counts, some_different_pred(tied)) {
        None => (tied, seq![(0int, tied.len() as int, granularity)]),
        Some(k) => if 0 <= k < counts.len() {
            split_groups(counts, tied, tallies_of(counts[k]), granularity, just_consider_major_counts, 0, tied.len())
        } else {
            (tied, Seq::empty())
        },
    }
}

/// Splitting by a value splits the candidates.
proof fn lemma_with_value_split<T: TallyValue>(s: Seq<CandidateIndex>, tallies: Seq<T>, v: nat)
    ensures
        with_value(s, tallies, v, true).len() + with_value(s, tallies, v, false).len() == s.len(),
        with_value(s, tallies, v, true).to_multiset().add(with_value(s, tallies, v, false).to_multiset()) == s.to_multiset(),
    decreases s.len(),
{
    broadcast use vstd::seq_lib::group_to_multiset_ensures, vstd::multiset::group_multiset_axioms;
    if s.len() > 0 {
        lemma_with_value_split(s.drop_last(), tallies, v);
        assert(s =~= s.drop_last().push(s.last()));
        assert(with_value(s, tallies, v, true).to_multiset().add(with_value(s, tallies, v, false).to_multiset())
            =~= s.to_multiset());
    }
}

/// A candidate with (or without) the value is kept by the split that keeps those.
proof fn lemma_with_value_nonempty<T: TallyValue>(s: Seq<CandidateIndex>, tallies: Seq<T>, v: nat, keep: bool, i: int)
    requires
        0 <= i < s.len(),
        (value_of(tallies, s[i]) == v) == keep,
    ensures
        with_value(s, tallies, v, keep).len() > 0,
    decreases s.len(),
{
    if i < s.len() - 1 {
        assert(s.drop_last()[i] == s[i]);
        lemma_with_value_nonempty(s.drop_last(), tallies, v, keep, i);
    }
}

/// Some candidate has the lowest tally.
proof fn lemma_min_value_attained<T: TallyValue>(s: Seq<CandidateIndex>, tallies: Seq<T>) -> (i: int)
    requires
        s.len() > 0,
    ensures
        0 <= i < s.len(),
        value_of(tallies, s[i]) == min_value(s, tallies),
    decreases s.len(),
{
    if s.len() == 1 {
        0
    } else {
        let j = lemma_min_value_attained(s.drop_last(), tallies);
        if value_of(tallies, s.last()) < min_value(s.drop_last(), tallies) {
            s.len() - 1
        } else {
            j
        }
    }
}

/// The lowest group of a tie whose tallies are not all the same is smaller than the tie.
proof fn lemma_first_group_smaller<T: TallyValue>(s: Seq<CandidateIndex>, tallies: Seq<T>)
    requires
        some_different(tallies, s),
    ensures
        with_value(s, tallies, min_value(s, tallies), true).len() < s.len(),
{
    let v = min_value(s, tallies);
    let (i, j) = choose|i: int, j: int|
        0 <= i < s.len() && 0 <= j < s.len() && value_of(tallies, #[trigger] s[i]) != value_of(tallies, #[trigger] s[j]);
    lemma_with_value_split(s, tallies, v);
    if value_of(tallies, s[i]) != v {
        lemma_with_value_nonempty(s, tallies, v, false, i);
    } else {
        lemma_with_value_nonempty(s, tallies, v, false, j);
    }
}

/// The lowest tally among the candidates.
fn min_value_exec<T: TallyValue>(tallies: &Vec<T>, s: &Vec<CandidateIndex>) -> (res: T)
    requires
        s@.len() > 0,
        all_have_keys(s@, tallies@),
    ensures
        res.value() == min_value(s@, tallies@),
{
    assert(s@[0].0 < tallies@.len());
    let mut m = tallies[s[0].0];
    assert(s@.take(1).drop_last().len() == 0);
    for i in 1..s.len()
        invariant
            all_have_keys(s@, tallies@),
            i >= 1,
            m.value() == min_value(s@.take(i as int), tallies@),
    {
        assert(s@.take(i + 1).drop_last() =~= s@.take(i as int));
        assert(s@[i as int].0 < tallies@.len());
        let v = tallies[s[i].0];
        if v.is_less(&m) {
            m = v;
        }
    }
    assert(s@.take(s@.len() as int) =~= s@);
    m
}

/// Split candidates into those with tally `v` and the rest, keeping their order.
fn split_by_value<T: TallyValue>(tallies: &Vec<T>, s: &Vec<CandidateIndex>, v: &T) -> (res: (Vec<CandidateIndex>, Vec<CandidateIndex>))
    requires
        all_have_keys(s@, tallies@),
    ensures
        res.0@ == with_value(s@, tallies@, v.value(), true),
        res.1@ == with_value(s@, tallies@, v.value(), false),
{
    let mut g: Vec<CandidateIndex> = Vec::new();
    let mut r: Vec<CandidateIndex> = Vec::new();
    for i in 0..s.len()
        invariant
            all_have_keys(s@, tallies@),
            g@ == with_value(s@.take(i as int), tallies@, v.value(), true),
            r@ == with_value(s@.take(i as int), tallies@, v.value(), false),
    {
        assert(s@.take(i + 1).drop_last() =~= s@.take(i as int));
        assert(s@[i as int].0 < tallies@.len());
        if tallies[s[i].0].is_same(v) {
            g.push(s[i]);
        } else {
            r.push(s[i]);
        }
    }
    assert(s@.take(s@.len() as int) =~= s@);
    (g, r)
}

/// True iff not all the candidates have the same tally.
fn some_different_exec<T: TallyValue>(tallies: &Vec<T>, s: &Vec<CandidateIndex>) -> (res: bool)
    requires
        all_have_keys(s@, tallies@),
    ensures
        res == some_different(tallies@, s@),
{
    if s.len() == 0 {
        return false;
    }
    assert(s@[0].0 < tallies@.len());
    for i in 1..s.len()
        invariant
            all_have_keys(s@, tallies@),
            s@.len() > 0,
            forall|j: int| 0 <= j < i ==> value_of(tallies@, #[trigger] s@[j]) == value_of(tallies@, s@[0]),
    {
        assert(s@[i as int].0 < tallies@.len());
        if !tallies[s[i].0].is_same(&tallies[s[0].0]) {
            assert(value_of(tallies@, s@[i as int]) != value_of(tallies@, s@[0]));
            return true;
        }
    }
    assert(!some_different(tallies@, s@)) by {
        if some_different(tallies@, s@) {
            let (i, j) = choose|i: int, j: int|
                0 <= i < s@.len() && 0 <= j < s@.len() && value_of(tallies@, #[trigger] s@[i]) != value_of(
                    tallies@,
                    #[trigger] s@[j],
                );
            assert(value_of(tallies@, s@[i]) == value_of(tallies@, s@[0]));
        }
    }
    false
}

} // verus!

verus! {

/// The candidates of a split are among the candidates split, so still have tallies at every count.
proof fn lemma_cover_with_value<Tally: TallyValue>(
    counts: Seq<SingleCount<Tally>>,
    s: Seq<CandidateIndex>,
    tallies: Seq<Tally>,
    v: nat,
    keep: bool,
)
    requires
        tallies_cover(counts, s),
    ensures
        tallies_cover(counts, with_value(s, tallies, v, keep)),
    decreases s.len(),
{
    if s.len() > 0 {
        assert(tallies_cover(counts, s.drop_last())) by {
            assert forall|k: int, i: int|
                0 <= k < counts.len() && 0 <= i < s.drop_last().len() implies (#[trigger] s.drop_last()[i]).0 < (
            #[trigger] counts[k]).status.tallies.candidate@.len() by {
                assert(s.drop_last()[i] == s[i]);
            }
        }
        lemma_cover_with_value(counts, s.drop_last(), tallies, v, keep);
        let w = with_value(s, tallies, v, keep);
        assert forall|k: int, i: int| 0 <= k < counts.len() && 0 <= i < w.len() implies (#[trigger] w[i]).0 < (
        #[trigger] counts[k]).status.tallies.candidate@.len() by {
            if (value_of(tallies, s.last()) == v) == keep && i == w.len() - 1 {
                assert(w[i] == s[s.len() - 1]);
            } else {
                assert(w[i] == with_value(s.drop_last(), tallies, v, keep)[i]);
            }
        }
    }
}

/// The latest considered count at which not all the candidates had the same tally.
fn latest_with_some_different<Tally: TallyValue>(
    tied: &Vec<CandidateIndex>,
    transcript: &Transcript<Tally>,
    just_consider_major_counts: bool,
) -> (res: Option<usize>)
    requires
        tallies_cover(transcript.counts@, tied@),
    ensures
        match latest_count(
            transcript.counts@,
            transcript.counts@.len() as int,
            just_consider_major_counts,
            some_different_pred(tied@),
        ) {
            Some(k) => res is Some && res->0 == k && 0 <= k < transcript.counts@.len(),
            None => res is None,
        },
{
    let ghost pred = some_different_pred::<Tally>(tied@);
    let mut k = transcript.counts.len();
    while k > 0
        invariant
            k <= transcript.counts@.len(),
            tallies_cover(transcript.counts@, tied@),
            pred == some_different_pred::<Tally>(tied@),
            latest_count(transcript.counts@, transcript.counts@.len() as int, just_consider_major_counts, pred)
                == latest_count(transcript.counts@, k as int, just_consider_major_counts, pred),
        decreases k,
    {
        let count = &transcript.counts[k - 1];
        assert(transcript.counts@[k - 1] == *count);
        if count.reason_completed || !just_consider_major_counts {
            let tallies = &count.status.tallies.candidate;
            assert(all_have_keys(tied@, tallies@)) by {
                assert forall|i: int| 0 <= i < tied@.len() implies (#[trigger] tied@[i]).0 < tallies@.len() by {
                    assert(transcript.counts@[k - 1] == *count);
                }
            }
            if some_different_exec(tallies, tied) {
                assert(pred(tallies_of(transcript.counts@[k - 1])));
                return Some(k - 1);
            }
            assert(!pred(tallies_of(transcript.counts@[k - 1])));
        }
        k = k - 1;
    }
    None
}

/// The ranges lie within the first `n` positions.
pub open spec fn ranges_within(rs: Seq<UnresolvedRange>, n: int) -> bool {
    forall|i: int| 0 <= i < rs.len() ==> (#[trigger] rs[i]).0 <= rs[i].1 <= n
}

#[verifier::loop_isolation(false)]
#[verifier::rlimit(60)]
fn any_different_exec<Tally: TallyValue>(
    tied: Vec<CandidateIndex>,
    transcript: &Transcript<Tally>,
    granularity: TieResolutionGranularityNeeded,
    just_consider_major_counts: bool,
) -> (res: (Vec<CandidateIndex>, Vec<UnresolvedRange>))
    requires
        tallies_cover(transcript.counts@, tied@),
    ensures
        res.0@ == any_different_resolution(transcript.counts@, tied@, granularity, just_consider_major_counts).0,
        ranges_view(res.1@) == any_different_resolution(transcript.counts@, tied@, granularity, just_consider_major_counts).1,
        res.0@.to_multiset() == tied@.to_multiset(),
        res.0@.len() == tied@.len(),
        ranges_within(res.1@, tied@.len() as int),
    decreases tied@.len(),
{
    broadcast use vstd::seq_lib::group_to_multiset_ensures, vstd::multiset::group_multiset_axioms;
    let ghost counts = transcript.counts@;
    let ghost tied0 = tied@;
    let n = tied.len();
    let found = latest_with_some_different(&tied, transcript, just_consider_major_counts);
    match found {
        None => {
            let mut ranges: Vec<UnresolvedRange> = Vec::new();
            ranges.push((0, n, granularity));
            assert(ranges_view(ranges@) =~= seq![(0int, n as int, granularity)]);
            (tied, ranges)
        },
        Some(k) => {
            let tallies = &transcript.counts[k].status.tallies.candidate;
            let ghost ts = tallies@;
            proof {
                let pred = some_different_pred::<Tally>(tied0);
                lemma_latest_count(counts, counts.len() as int, just_consider_major_counts, pred);
                assert(counts[k as int] == transcript.counts@[k as int]);
                assert(pred(tallies_of(counts[k as int])));
            }
            assert(some_different(ts, tied0));
            let mut out: Vec<CandidateIndex> = Vec::new();
            let mut ranges: Vec<UnresolvedRange> = Vec::new();
            let mut rest = tied;
            let mut upto: usize = 0;
            while rest.len() > 0
                invariant
                    ts == tallies@,
                    ts == tallies_of(counts[k as int]),
                    counts == transcript.counts@,
                    split_groups(counts, tied0, ts, granularity, just_consider_major_counts, 0, n as nat) == (
                    out@ + split_groups(counts, rest@, ts, granularity, just_consider_major_counts, upto as int, n as nat).0,
                    ranges_view(ranges@) + split_groups(
                        counts,
                        rest@,
                        ts,
                        granularity,
                        just_consider_major_counts,
                        upto as int,
                        n as nat,
                    ).1),
                    upto + rest@.len() == n,
                    rest@.len() < n || some_different(ts, rest@),
                    tallies_cover(counts, rest@),
                    out@.to_multiset().add(rest@.to_multiset()) == tied0.to_multiset(),
                    out@.len() == upto,
                    ranges_within(ranges@, upto as int),
                decreases rest@.len(),
            {
                assert(all_have_keys(rest@, tallies@)) by {
                    assert forall|i: int| 0 <= i < rest@.len() implies (#[trigger] rest@[i]).0 < tallies@.len() by {
                        assert(rest@[i].0 < counts[k as int].status.tallies.candidate@.len());
                    }
                }
                let v = min_value_exec(tallies, &rest);
                let (g, r) = split_by_value(tallies, &rest, &v);
                proof {
                    lemma_with_value_split(rest@, ts, v.value());
                    let i = lemma_min_value_attained(rest@, ts);
                    lemma_with_value_nonempty(rest@, ts, v.value(), true, i);
                    if rest@.len() == n {
                        lemma_first_group_smaller(rest@, ts);
                    }
                    lemma_cover_with_value(counts, rest@, ts, v.value(), true);
                    lemma_cover_with_value(counts, rest@, ts, v.value(), false);
                }
                let glen = g.len();
                let ghost g_seq = g@;
                let (g2, rg) = if glen > 1 {
                    match granularity {
                        TieResolutionGranularityNeeded::Total => any_different_exec(
                            g,
                            transcript,
                            TieResolutionGranularityNeeded::Total,
                            just_consider_major_counts,
                        ),
                        TieResolutionGranularityNeeded::LowestSeparated(loc) => {
                            if upto < loc && loc < upto + glen {
                                any_different_exec(
                                    g,
                                    transcript,
                                    TieResolutionGranularityNeeded::LowestSeparated(loc - upto),
                                    just_consider_major_counts,
                                )
                            } else {
                                (g, Vec::new())
                            }
                        },
                    }
                } else {
                    (g, Vec::new())
                };
                let ghost old_ranges = ranges@;
                for j in 0..rg.len()
                    invariant
                        ranges@.len() == old_ranges.len() + j,
                        ranges@.take(old_ranges.len() as int) == old_ranges,
                        ranges_within(rg@, glen as int),
                        upto + glen <= n,
                        forall|x: int| 0 <= x < j ==> #[trigger] ranges@[old_ranges.len() + x] == (
                            (rg@[x].0 + upto) as usize,
                            (rg@[x].1 + upto) as usize,
                            rg@[x].2,
                        ),
                        ranges_within(old_ranges, upto as int),
                        forall|x: int| 0 <= x < ranges@.len() ==> (#[trigger] ranges@[x]).0 <= ranges@[x].1 <= upto + glen,
                {
                    let (a, b, gg) = rg[j];
                    assert(rg@[j as int].0 <= rg@[j as int].1 <= glen);
                    ranges.push((a + upto, b + upto, gg));
                    assert(ranges@.take(old_ranges.len() as int) =~= old_ranges);
                }
                assert(ranges_view(ranges@) =~= ranges_view(old_ranges) + shifted(ranges_view(rg@), upto as int)) by {
                    assert forall|x: int| 0 <= x < ranges@.len() implies #[trigger] ranges_view(ranges@)[x] == (ranges_view(
                        old_ranges,
                    ) + shifted(ranges_view(rg@), upto as int))[x] by {
                        if x < old_ranges.len() {
                            assert(ranges@[x] == ranges@.take(old_ranges.len() as int)[x]);
                        } else {
                            let y = x - old_ranges.len();
                            assert(ranges@[old_ranges.len() + y] == (
                                (rg@[y].0 + upto) as usize,
                                (rg@[y].1 + upto) as usize,
                                rg@[y].2,
                            ));
                        }
                    }
                }
                let mut g2m = g2;
                let ghost out_before = out@;
                let ghost g2_seq = g2m@;
                assert(g2_seq.to_multiset() == g_seq.to_multiset());
                out.append(&mut g2m);
                upto = upto + glen;
                rest = r;
                assert(out@.to_multiset() == out_before.to_multiset().add(g_seq.to_multiset())) by {
                    vstd::seq_lib::lemma_multiset_commutative(out_before, g2_seq);
                }
            }
            (out, ranges)
        },
    }
}

/// Sort candidates low to high based on a countback where any difference is used as much as
/// possible. Returns the ranges of positions still unresolved, with the granularity each still needs.
pub fn resolve_ties_any_different<Tally: TallyValue>(
    tied_candidates: &mut Vec<CandidateIndex>,
    transcript: &Transcript<Tally>,
    granularity: TieResolutionGranularityNeeded,
    just_consider_major_counts: bool,
) -> (res: Vec<UnresolvedRange>)
    requires
        tallies_cover(transcript.counts@, old(tied_candidates)@),
    ensures
        final(tied_candidates)@ == any_different_resolution(
            transcript.counts@,
            old(tied_candidates)@,
            granularity,
            just_consider_major_counts,
        ).0,
        ranges_view(res@) == any_different_resolution(
            transcript.counts@,
            old(tied_candidates)@,
            granularity,
            just_consider_major_counts,
        ).1,
        final(tied_candidates)@.to_multiset() == old(tied_candidates)@.to_multiset(),
        final(tied_candidates)@.len() == old(tied_candidates)@.len(),
        ranges_within(res@, old(tied_candidates)@.len() as int),
{
    let mut owned: Vec<CandidateIndex> = Vec::new();
    std::mem::swap(&mut owned, tied_candidates);
    let (order, ranges) = any_different_exec(owned, transcript, granularity, just_consider_major_counts);
    *tied_candidates = order;
    ranges
}

/// Like `resolve_ties_any_different`, but only reports whether everything was resolved to the
/// required granularity.
pub fn resolve_ties_any_different_give_up_if_cant_do_everything<Tally: TallyValue>(
    tied_candidates: &mut Vec<CandidateIndex>,
    transcript: &Transcript<Tally>,
    granularity: TieResolutionGranularityNeeded,
    just_consider_major_counts: bool,
) -> (res: bool)
    requires
        tallies_cover(transcript.counts@, old(tied_candidates)@),
    ensures
        final(tied_candidates)@ == any_different_resolution(
            transcript.counts@,
            old(tied_candidates)@,
            granularity,
            just_consider_major_counts,
        ).0,
        res == (any_different_resolution(
            transcript.counts@,
            old(tied_candidates)@,
            granularity,
            just_consider_major_counts,
        ).1.len() == 0),
        final(tied_candidates)@.to_multiset() == old(tied_candidates)@.to_multiset(),
        final(tied_candidates)@.len() == old(tied_candidates)@.len(),
{
    let remaining = resolve_ties_any_different(tied_candidates, transcript, granularity, just_consider_major_counts);
    remaining.len() == 0
}

} // verus!
