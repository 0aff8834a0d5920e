//! The NSW Legislative Council (and old local government) method of working out how many ballot
//! papers of each candidate are set aside, so that the right number of papers are transferred.

use vstd::prelude::*;
use crate::ballot_metadata::CandidateIndex;
use crate::ballot_pile::{BallotPaperCount, DistributedVotes};
use crate::countback::{any_different_resolution, resolve_ties_any_different, tallies_cover};
use crate::distribution_of_preferences_transcript::{DecisionMadeByEC, SingleCount, Transcript};
use crate::tally::TallyValue;
use crate::tie_resolution::TieResolutionGranularityNeeded;
use crate::transfer_value::{Fraction, TransferValue};

verus! {

/// What the transfer value does to one candidate's papers.
#[derive(Copy, Clone, Debug)]
pub struct SelectVotesToSetAsideByTV {
    pub candidate: CandidateIndex,
    pub distributed: BallotPaperCount,
    pub integer_portion: BallotPaperCount,
    pub fractional_portion: Fraction,
}

/// The entry for a candidate with `d` papers.
pub open spec fn entry_of(tv: TransferValue, d: usize, c: int) -> SelectVotesToSetAsideByTV {
    SelectVotesToSetAsideByTV {
        candidate: CandidateIndex(c as usize),
        distributed: BallotPaperCount(d),
        integer_portion: BallotPaperCount(((tv.numerator * d) / (tv.denominator as int)) as usize),
        fractional_portion: Fraction {
            numerator: ((tv.numerator * d) % (tv.denominator as int)) as u128,
            denominator: tv.denominator,
        },
    }
}

/// `a` comes before `b`: a larger fractional part first, then a larger whole part, then the
/// earlier candidate.
pub open spec fn comes_before(a: SelectVotesToSetAsideByTV, b: SelectVotesToSetAsideByTV) -> bool {
    a.fractional_portion.numerator > b.fractional_portion.numerator || (a.fractional_portion.numerator
        == b.fractional_portion.numerator && (a.integer_portion.0 > b.integer_portion.0 || (a.integer_portion.0
        == b.integer_portion.0 && a.candidate.0 < b.candidate.0)))
}

/// The position of the entry that comes first (the first such, if several).
pub open spec fn first_position(s: Seq<SelectVotesToSetAsideByTV>) -> int
    decreases s.len(),
{
    if s.len() <= 1 {
        0
    } else {
        let j = first_position(s.drop_last());
        if comes_before(s.last(), s[j]) {
            s.len() - 1
        } else {
            j
        }
    }
}

proof fn lemma_first_position_in_range(s: Seq<SelectVotesToSetAsideByTV>)
    requires
        s.len() > 0,
    ensures
        0 <= first_position(s) < s.len(),
    decreases s.len(),
{
    if s.len() > 1 {
        lemma_first_position_in_range(s.drop_last());
    }
}

/// The entries in order: repeatedly the one that comes first of those left.
pub open spec fn in_order(s: Seq<SelectVotesToSetAsideByTV>) -> Seq<SelectVotesToSetAsideByTV>
    decreases s.len(),
{
    if s.len() == 0 {
        Seq::empty()
    } else {
        let b = first_position(s);
        if 0 <= b < s.len() {
            seq![s[b]] + in_order(s.remove(b))
        } else {
            Seq::empty()
        }
    }
}

/// Moving back from `pos`, the first position of the run of entries with `d` papers.
pub open spec fn run_start(o: Seq<SelectVotesToSetAsideByTV>, pos: int, d: usize) -> int
    decreases pos,
{
    if pos > 0 && o[pos - 1].distributed.0 == d {
        run_start(o, pos - 1, d)
    } else {
        pos
    }
}

/// Moving on from `pos`, the position after the run of entries with `d` papers.
pub open spec fn run_end(o: Seq<SelectVotesToSetAsideByTV>, pos: int, d: usize) -> int
    decreases o.len() - pos,
{
    if 0 <= pos < o.len() && o[pos].distributed.0 == d {
        run_end(o, pos + 1, d)
    } else {
        pos
    }
}

/// The entries with their candidates between `start` and `end` replaced, highest resolved first.
pub open spec fn with_resolved(
    o: Seq<SelectVotesToSetAsideByTV>,
    start: int,
    end: int,
    resolved: Seq<CandidateIndex>,
) -> Seq<SelectVotesToSetAsideByTV> {
    Seq::new(
        o.len(),
        |p: int|
            if start <= p < end {
                SelectVotesToSetAsideByTV { candidate: resolved[resolved.len() - 1 - (p - start)], ..o[p] }
            } else {
                o[p]
            },
    )
}

/// The first `extra` entries get one more whole paper.
pub open spec fn rounded_up(o: Seq<SelectVotesToSetAsideByTV>, extra: int) -> Seq<SelectVotesToSetAsideByTV> {
    Seq::new(
        o.len(),
        |p: int|
            if p < extra {
                SelectVotesToSetAsideByTV {
                    integer_portion: BallotPaperCount((o[p].integer_portion.0 + 1) as usize),
                    ..o[p]
                }
            } else {
                o[p]
            },
    )
}

/// The first position whose entry is for the candidate, if any.
pub open spec fn position_of(o: Seq<SelectVotesToSetAsideByTV>, c: int) -> Option<int>
    decreases o.len(),
{
    if o.len() == 0 {
        None
    } else {
        match position_of(o.drop_last(), c) {
            Some(p) => Some(p),
            None => if o.last().candidate.0 == c {
                Some(o.len() - 1)
            } else {
                None
            },
        }
    }
}

/// The papers set aside for each candidate: those distributed less those transferred.
pub open spec fn set_aside_of(o: Seq<SelectVotesToSetAsideByTV>, n: int) -> Seq<int> {
    Seq::new(
        n as nat,
        |c: int|
            match position_of(o, c) {
                Some(p) => o[p].distributed.0 - o[p].integer_portion.0,
                None => 0,
            },
    )
}

/// The papers of the first `n` candidates.
pub open spec fn distributed_counts(distributed: DistributedVotes, n: int) -> Seq<usize> {
    Seq::new(n as nat, |c: int| distributed.by_candidate@[c].num_ballots.0)
}

/// The sum of the whole parts.
pub open spec fn total_whole(s: Seq<SelectVotesToSetAsideByTV>) -> nat
    decreases s.len(),
{
    if s.len() == 0 {
        0
    } else {
        total_whole(s.drop_last()) + s.last().integer_portion.0 as nat
    }
}

/// What the tie at the boundary is resolved to: the run of entries with the same number of papers
/// around position `extra`, and the countback's order of their candidates.
pub open spec fn boundary_tie<Tally: TallyValue>(
    counts: Seq<SingleCount<Tally>>,
    o: Seq<SelectVotesToSetAsideByTV>,
    extra: int,
) -> (int, int, Seq<CandidateIndex>, Seq<(int, int, TieResolutionGranularityNeeded)>) {
    let d = o[extra].distributed.0;
    let start = run_start(o, extra - 1, d);
    let end = run_end(o, extra + 1, d);
    let tied = o.subrange(start, end).map_values(|e: SelectVotesToSetAsideByTV| e.candidate);
    let r = any_different_resolution(counts, tied, TieResolutionGranularityNeeded::LowestSeparated((end - extra) as usize), false);
    (start, end, r.0, r.1)
}

/// The entries in order with ties at the boundary resolved.
pub open spec fn boundary_resolved<Tally: TallyValue>(
    counts: Seq<SingleCount<Tally>>,
    o: Seq<SelectVotesToSetAsideByTV>,
    extra: int,
) -> Seq<SelectVotesToSetAsideByTV> {
    if o[extra - 1].distributed.0 == o[extra].distributed.0 {
        let (start, end, resolved, _r) = boundary_tie(counts, o, extra);
        with_resolved(o, start, end, resolved)
    } else {
        o
    }
}

/// The entries after the extra papers are handed out, with ties at the boundary resolved.
pub open spec fn final_entries<Tally: TallyValue>(
    counts: Seq<SingleCount<Tally>>,
    o: Seq<SelectVotesToSetAsideByTV>,
    extra: int,
) -> Seq<SelectVotesToSetAsideByTV> {
    rounded_up(boundary_resolved(counts, o, extra), extra)
}

/// Every entry is for one of the first `n` candidates and has no more whole papers than papers.
pub open spec fn entries_sound(s: Seq<SelectVotesToSetAsideByTV>, n: int) -> bool {
    forall|i: int|
        0 <= i < s.len() ==> (#[trigger] s[i]).candidate.0 < n && s[i].integer_portion.0 <= s[i].distributed.0
}

proof fn lemma_total_whole_prefix(s: Seq<SelectVotesToSetAsideByTV>, i: int)
    requires
        0 <= i <= s.len(),
    ensures
        total_whole(s.take(i)) <= total_whole(s),
    decreases s.len() - i,
{
    if i < s.len() {
        lemma_total_whole_prefix(s, i + 1);
        assert(s.take(i + 1).drop_last() =~= s.take(i));
    } else {
        assert(s.take(i) =~= s);
    }
}

/// Ordering keeps the number of entries and their soundness.
proof fn lemma_in_order(s: Seq<SelectVotesToSetAsideByTV>, n: int)
    ensures
        in_order(s).len() == s.len(),
        entries_sound(s, n) ==> entries_sound(in_order(s), n),
    decreases s.len(),
{
    if s.len() > 0 {
        let b = first_position(s);
        lemma_first_position_in_range(s);
        let r = s.remove(b);
        lemma_in_order(r, n);
        if entries_sound(s, n) {
            assert forall|i: int| 0 <= i < r.len() implies (#[trigger] r[i]).candidate.0 < n && r[i].integer_portion.0
                <= r[i].distributed.0 by {
                if i < b {
                    assert(r[i] == s[i]);
                } else {
                    assert(r[i] == s[i + 1]);
                }
            }
            let o = in_order(s);
            assert forall|i: int| 0 <= i < o.len() implies (#[trigger] o[i]).candidate.0 < n && o[i].integer_portion.0
                <= o[i].distributed.0 by {
                if i == 0 {
                    assert(o[0] == s[b]);
                } else {
                    assert(o[i] == in_order(r)[i - 1]);
                }
            }
        }
    }
}

/// The entry found first has a fractional part at least as large as that of every entry.
proof fn lemma_first_position_largest_fraction(s: Seq<SelectVotesToSetAsideByTV>)
    requires
        s.len() > 0,
    ensures
        forall|k: int| 0 <= k < s.len() ==> s[first_position(s)].fractional_portion.numerator >= (#[trigger] s[k]).fractional_portion.numerator,
    decreases s.len(),
{
    lemma_first_position_in_range(s);
    if s.len() > 1 {
        let p = s.drop_last();
        lemma_first_position_largest_fraction(p);
        lemma_first_position_in_range(p);
        assert forall|k: int| 0 <= k < s.len() implies s[first_position(s)].fractional_portion.numerator >= (#[trigger] s[k]).fractional_portion.numerator by {
            if k < p.len() {
                assert(s[k] == p[k]);
            }
            assert(s[first_position(p)] == p[first_position(p)]);
        }
    }
}

/// Every entry in order is one of the entries.
proof fn lemma_in_order_from(s: Seq<SelectVotesToSetAsideByTV>)
    ensures
        in_order(s).len() == s.len(),
        forall|i: int| 0 <= i < in_order(s).len() ==> exists|k: int| 0 <= k < s.len() && s[k] == #[trigger] in_order(s)[i],
    decreases s.len(),
{
    if s.len() > 0 {
        let b = first_position(s);
        lemma_first_position_in_range(s);
        let r = s.remove(b);
        lemma_in_order_from(r);
        let o = in_order(s);
        assert forall|i: int| 0 <= i < o.len() implies exists|k: int| 0 <= k < s.len() && s[k] == #[trigger] o[i] by {
            if i == 0 {
                assert(s[b] == o[0]);
            } else {
                assert(o[i] == in_order(r)[i - 1]);
                let k = choose|k: int| 0 <= k < r.len() && r[k] == #[trigger] in_order(r)[i - 1];
                if k < b {
                    assert(s[k] == r[k]);
                } else {
                    assert(s[k + 1] == r[k]);
                }
            }
        }
    }
}

/// In order, the fractional parts never increase: larger remainders come first.
pub proof fn lemma_in_order_by_fraction(s: Seq<SelectVotesToSetAsideByTV>)
    ensures
        forall|i: int, j: int|
            0 <= i < j < in_order(s).len() ==> (#[trigger] in_order(s)[i]).fractional_portion.numerator >= (#[trigger] in_order(
                s,
            )[j]).fractional_portion.numerator,
    decreases s.len(),
{
    if s.len() > 0 {
        let b = first_position(s);
        lemma_first_position_in_range(s);
        lemma_first_position_largest_fraction(s);
        let r = s.remove(b);
        lemma_in_order_by_fraction(r);
        lemma_in_order_from(r);
        let o = in_order(s);
        assert forall|i: int, j: int| 0 <= i < j < o.len() implies (#[trigger] o[i]).fractional_portion.numerator >= (#[trigger] o[
            j]).fractional_portion.numerator by {
            assert(o[j] == in_order(r)[j - 1]);
            let k = choose|k: int| 0 <= k < r.len() && r[k] == #[trigger] in_order(r)[j - 1];
            if k < b {
                assert(s[k] == r[k]);
            } else {
                assert(s[k + 1] == r[k]);
            }
            if i > 0 {
                assert(o[i] == in_order(r)[i - 1]);
            }
        }
    }
}

/// `a` is to be handed an extra paper no later than `b`: a larger fractional part, or the same
/// fractional part and a larger whole part, or both the same and a candidate no later on the
/// ballot.
pub open spec fn ranks_before(a: SelectVotesToSetAsideByTV, b: SelectVotesToSetAsideByTV) -> bool {
    ||| a.fractional_portion.numerator > b.fractional_portion.numerator
    ||| a.fractional_portion.numerator == b.fractional_portion.numerator && a.integer_portion.0 > b.integer_portion.0
    ||| a.fractional_portion.numerator == b.fractional_portion.numerator && a.integer_portion.0 == b.integer_portion.0
        && a.candidate.0 <= b.candidate.0
}

/// The entry found first ranks before every entry.
proof fn lemma_first_position_ranks_first(s: Seq<SelectVotesToSetAsideByTV>)
    requires
        s.len() > 0,
    ensures
        forall|k: int| 0 <= k < s.len() ==> ranks_before(s[first_position(s)], #[trigger] s[k]),
    decreases s.len(),
{
    lemma_first_position_in_range(s);
    if s.len() > 1 {
        let p = s.drop_last();
        lemma_first_position_ranks_first(p);
        lemma_first_position_in_range(p);
        assert forall|k: int| 0 <= k < s.len() implies ranks_before(s[first_position(s)], #[trigger] s[k]) by {
            if k < p.len() {
                assert(s[k] == p[k]);
            }
            assert(s[first_position(p)] == p[first_position(p)]);
        }
    }
}

/// In order, each entry ranks before every later one: the extra papers go first to the largest
/// fractional parts, then the largest whole parts, then the earliest candidates.
pub proof fn lemma_in_order_ranked(s: Seq<SelectVotesToSetAsideByTV>)
    ensures
        forall|i: int, j: int| 0 <= i < j < in_order(s).len() ==> ranks_before(#[trigger] in_order(s)[i], #[trigger] in_order(s)[j]),
    decreases s.len(),
{
    if s.len() > 0 {
        let b = first_position(s);
        lemma_first_position_in_range(s);
        lemma_first_position_ranks_first(s);
        let r = s.remove(b);
        lemma_in_order_ranked(r);
        lemma_in_order_from(r);
        let o = in_order(s);
        assert forall|i: int, j: int| 0 <= i < j < o.len() implies ranks_before(#[trigger] o[i], #[trigger] o[j]) by {
            assert(o[j] == in_order(r)[j - 1]);
            let k = choose|k: int| 0 <= k < r.len() && r[k] == #[trigger] in_order(r)[j - 1];
            if k < b {
                assert(s[k] == r[k]);
            } else {
                assert(s[k + 1] == r[k]);
            }
            if i > 0 {
                assert(o[i] == in_order(r)[i - 1]);
            }
        }
    }
}

/// When papers are left over after the whole parts, each of the `extra` entries given one more
/// paper has a fractional part at least as large as that of every entry not given one; and the
/// entries given one are exactly the first `extra`, each with its whole part raised by one.
pub proof fn lemma_extra_papers_to_largest_fractions<Tally: TallyValue>(
    counts: Seq<SingleCount<Tally>>,
    entries: Seq<SelectVotesToSetAsideByTV>,
    extra: int,
)
    requires
        0 < extra < entries.len(),
        forall|k: int| 0 <= k < entries.len() ==> (#[trigger] entries[k]).integer_portion.0 < usize::MAX,
    ensures
        ({
            let o = in_order(entries);
            let f = final_entries(counts, o, extra);
            &&& f.len() == entries.len()
            &&& forall|p: int, q: int|
                0 <= p < extra <= q < f.len() ==> (#[trigger] f[p]).fractional_portion.numerator >= (#[trigger] f[q]).fractional_portion.numerator
            &&& forall|p: int, q: int|
                0 <= p < extra <= q < f.len() && (#[trigger] f[p]).fractional_portion.numerator == (#[trigger] f[q]).fractional_portion.numerator
                    ==> o[p].integer_portion.0 >= o[q].integer_portion.0
            &&& forall|p: int| 0 <= p < f.len() ==> (#[trigger] f[p]).fractional_portion == o[p].fractional_portion
            &&& forall|p: int| 0 <= p < extra ==> (#[trigger] f[p]).integer_portion.0 == o[p].integer_portion.0 + 1
            &&& forall|p: int| extra <= p < f.len() ==> (#[trigger] f[p]).integer_portion == o[p].integer_portion
        }),
{
    let o = in_order(entries);
    lemma_in_order_from(entries);
    lemma_in_order_by_fraction(entries);
    lemma_in_order_ranked(entries);
    let f = final_entries(counts, o, extra);
    let b = boundary_resolved(counts, o, extra);
    assert(b.len() == o.len());
    assert forall|p: int| 0 <= p < b.len() implies (#[trigger] b[p]).fractional_portion == o[p].fractional_portion
        && b[p].integer_portion == o[p].integer_portion by {
    }
    assert forall|p: int, q: int| 0 <= p < extra <= q < f.len() implies (#[trigger] f[p]).fractional_portion.numerator >= (#[trigger] f[
        q]).fractional_portion.numerator by {
        assert(f[p].fractional_portion == b[p].fractional_portion);
        assert(f[q].fractional_portion == b[q].fractional_portion);
        assert(o[p].fractional_portion.numerator >= o[q].fractional_portion.numerator);
    }
    assert(f == rounded_up(b, extra));
    assert forall|p: int, q: int|
        0 <= p < extra <= q < f.len() && (#[trigger] f[p]).fractional_portion.numerator == (#[trigger] f[q]).fractional_portion.numerator
            implies o[p].integer_portion.0 >= o[q].integer_portion.0 by {
        assert(f[p].fractional_portion == b[p].fractional_portion);
        assert(f[q].fractional_portion == b[q].fractional_portion);
        assert(ranks_before(o[p], o[q]));
    }
    assert(f.len() == entries.len());
    assert forall|p: int| 0 <= p < f.len() implies (#[trigger] f[p]).fractional_portion == o[p].fractional_portion by {
        assert(b[p].fractional_portion == o[p].fractional_portion);
    }
    assert forall|p: int| 0 <= p < extra implies (#[trigger] f[p]).integer_portion.0 == o[p].integer_portion.0 + 1 by {
        assert(b[p].integer_portion == o[p].integer_portion);
        let k = choose|k: int| 0 <= k < entries.len() && entries[k] == #[trigger] o[p];
        assert(entries[k].integer_portion.0 < usize::MAX);
    }
    assert forall|p: int| extra <= p < f.len() implies (#[trigger] f[p]).integer_portion == o[p].integer_portion by {
        assert(b[p].integer_portion == o[p].integer_portion);
    }
}

/// The entry for each candidate.
fn compute_entries(tv: &TransferValue, num_candidates: usize, distributed: &DistributedVotes<'_>) -> (res: Vec<SelectVotesToSetAsideByTV>)
    requires
        tv.wf(),
        num_candidates <= distributed.by_candidate@.len(),
        forall|c: int| 0 <= c < num_candidates ==> (tv.numerator * distributed.by_candidate@[c].num_ballots.0) / (
        tv.denominator as int) <= usize::MAX,
    ensures
        res@ == Seq::new(num_candidates as nat, |c: int| entry_of(*tv, distributed.by_candidate@[c].num_ballots.0, c)),
{
    let ghost target = Seq::new(num_candidates as nat, |c: int| entry_of(*tv, distributed.by_candidate@[c].num_ballots.0, c));
    let mut entries: Vec<SelectVotesToSetAsideByTV> = Vec::new();
    for c in 0..num_candidates
        invariant
            tv.wf(),
            num_candidates <= distributed.by_candidate@.len(),
            forall|k: int| 0 <= k < num_candidates ==> (tv.numerator * distributed.by_candidate@[k].num_ballots.0) / (
            tv.denominator as int) <= usize::MAX,
            target == Seq::new(num_candidates as nat, |c: int| entry_of(*tv, distributed.by_candidate@[c].num_ballots.0, c)),
            entries@ == target.take(c as int),
    {
        let n_distributed = distributed.by_candidate[c].num_ballots;
        let (integer_portion, fractional_portion) = tv.mul_rounding_down_and_remainder(n_distributed);
        let e = SelectVotesToSetAsideByTV {
            candidate: CandidateIndex(c),
            distributed: n_distributed,
            integer_portion: BallotPaperCount(integer_portion),
            fractional_portion,
        };
        assert(e == target[c as int]);
        entries.push(e);
        assert(entries@ =~= target.take(c + 1));
    }
    assert(target.take(num_candidates as int) =~= target);
    entries
}

/// The sum of the whole parts.
fn sum_whole(entries: &Vec<SelectVotesToSetAsideByTV>, limit: usize) -> (res: Option<usize>)
    ensures
        match res {
            Some(w) => w == total_whole(entries@) && w <= limit,
            None => total_whole(entries@) > limit,
        },
{
    let mut whole: u128 = 0;
    for i in 0..entries.len()
        invariant
            whole == total_whole(entries@.take(i as int)),
            whole <= limit,
    {
        assert(entries@.take(i + 1).drop_last() =~= entries@.take(i as int));
        whole = whole + entries[i].integer_portion.0 as u128;
        if whole > limit as u128 {
            proof {
                lemma_total_whole_prefix(entries@, i + 1);
            }
            return None;
        }
    }
    assert(entries@.take(entries@.len() as int) =~= entries@);
    Some(whole as usize)
}

/// True iff `a` comes before `b`.
fn comes_before_exec(a: &SelectVotesToSetAsideByTV, b: &SelectVotesToSetAsideByTV) -> (res: bool)
    ensures
        res == comes_before(*a, *b),
{
    a.fractional_portion.numerator > b.fractional_portion.numerator || (a.fractional_portion.numerator
        == b.fractional_portion.numerator && (a.integer_portion.0 > b.integer_portion.0 || (a.integer_portion.0
        == b.integer_portion.0 && a.candidate.0 < b.candidate.0)))
}

/// Put the entries in order, repeatedly taking the one that comes first.
fn order_entries(entries: Vec<SelectVotesToSetAsideByTV>) -> (res: Vec<SelectVotesToSetAsideByTV>)
    ensures
        res@ == in_order(entries@),
{
    let ghost whole = entries@;
    let mut rest = entries;
    let mut res: Vec<SelectVotesToSetAsideByTV> = Vec::new();
    while rest.len() > 0
        invariant
            in_order(whole) == res@ + in_order(rest@),
        decreases rest@.len(),
    {
        let mut best: usize = 0;
        for j in 1..rest.len()
            invariant
                rest@.len() > 0,
                best < j,
                best == first_position(rest@.take(j as int)),
        {
            assert(rest@.take(j + 1).drop_last() =~= rest@.take(j as int));
            assert(rest@.take(j + 1).last() == rest@[j as int]);
            assert(rest@.take(j as int)[best as int] == rest@[best as int]);
            if comes_before_exec(&rest[j], &rest[best]) {
                best = j;
            }
        }
        assert(rest@.take(rest@.len() as int) =~= rest@);
        proof {
            lemma_first_position_in_range(rest@);
        }
        let ghost before = rest@;
        let e = rest.remove(best);
        let ghost prev = res@;
        res.push(e);
        assert(in_order(before) == seq![e] + in_order(rest@));
        assert(prev + in_order(before) =~= res@ + in_order(rest@));
    }
    assert(res@ + in_order(rest@) =~= res@);
    res
}

/// The candidates of the entries between `start` and `end`.
fn candidates_between(o: &Vec<SelectVotesToSetAsideByTV>, start: usize, end: usize) -> (res: Vec<CandidateIndex>)
    requires
        start <= end <= o@.len(),
    ensures
        res@ == o@.subrange(start as int, end as int).map_values(|e: SelectVotesToSetAsideByTV| e.candidate),
{
    let mut res: Vec<CandidateIndex> = Vec::new();
    for k in start..end
        invariant
            start <= end <= o@.len(),
            res@ == o@.subrange(start as int, k as int).map_values(|e: SelectVotesToSetAsideByTV| e.candidate),
    {
        res.push(o[k].candidate);
        assert(o@.subrange(start as int, k + 1).map_values(|e: SelectVotesToSetAsideByTV| e.candidate)
            =~= o@.subrange(start as int, k as int).map_values(|e: SelectVotesToSetAsideByTV| e.candidate).push(o@[k as int].candidate));
    }
    res
}

/// A copy of a list of candidates.
fn copy_candidate_list(v: &Vec<CandidateIndex>) -> (res: Vec<CandidateIndex>)
    ensures
        res@ == v@,
{
    let mut res: Vec<CandidateIndex> = Vec::new();
    for i in 0..v.len()
        invariant
            res@ == v@.take(i as int),
    {
        res.push(v[i]);
        assert(v@.take(i + 1) =~= v@.take(i as int).push(v@[i as int]));
    }
    assert(v@.take(v@.len() as int) =~= v@);
    res
}

/// Resolve a tie in the number of papers at the boundary, if there is one: the entries with the
/// candidates of the tie put highest first, and the decision needed if the countback did not
/// resolve it.
#[verifier::loop_isolation(false)]
fn resolve_boundary<Tally: TallyValue>(
    ordered: &mut Vec<SelectVotesToSetAsideByTV>,
    extra: usize,
    transcript: &Transcript<Tally>,
    num_candidates: usize,
) -> (res: Option<DecisionMadeByEC>)
    requires
        0 < extra < old(ordered)@.len(),
        entries_sound(old(ordered)@, num_candidates as int),
        forall|k: int|
            0 <= k < transcript.counts@.len() ==> num_candidates <= (#[trigger] transcript.counts@[k]).status.tallies.candidate@.len(),
    ensures
        ({
            let o = old(ordered)@;
            if o[extra - 1].distributed.0 == o[extra as int].distributed.0 {
                let (start, end, resolved, unresolved) = boundary_tie(transcript.counts@, o, extra as int);
                &&& final(ordered)@ == with_resolved(o, start, end, resolved)
                &&& if unresolved.len() == 0 {
                    res is None
                } else {
                    res matches Some(d) && d.affected@ == resolved
                }
            } else {
                final(ordered)@ == o && res is None
            }
        }),
{
    let ghost o = ordered@;
    if ordered[extra - 1].distributed.0 != ordered[extra].distributed.0 {
        return None;
    }
    assert(extra < ordered@.len());
    let d = ordered[extra].distributed.0;
    let mut start = extra - 1;
    while start > 0 && ordered[start - 1].distributed.0 == d
        invariant
            ordered@ == o,
            extra < o.len(),
            start <= extra - 1,
            run_start(o, extra - 1, d) == run_start(o, start as int, d),
        decreases start,
    {
        start = start - 1;
    }
    let n_ordered = ordered.len();
    assert(extra < n_ordered);
    let mut end = extra + 1;
    while end < ordered.len() && ordered[end].distributed.0 == d
        invariant
            ordered@ == o,
            extra + 1 <= end <= o.len(),
            run_end(o, extra + 1, d) == run_end(o, end as int, d),
        decreases o.len() - end,
    {
        end = end + 1;
    }
    let mut tied_candidates = candidates_between(ordered, start, end);
    let ghost tied = tied_candidates@;
    assert(tallies_cover(transcript.counts@, tied)) by {
        assert forall|k: int, i: int|
            0 <= k < transcript.counts@.len() && 0 <= i < tied.len() implies (#[trigger] tied[i]).0 < (
        #[trigger] transcript.counts@[k]).status.tallies.candidate@.len() by {
            assert(tied[i] == o[start + i].candidate);
            assert(o[start + i].candidate.0 < num_candidates);
        }
    }
    let unresolved = resolve_ties_any_different(
        &mut tied_candidates,
        transcript,
        TieResolutionGranularityNeeded::LowestSeparated(end - extra),
        false,
    );
    let res = if unresolved.len() > 0 {
        Some(DecisionMadeByEC { affected: copy_candidate_list(&tied_candidates) })
    } else {
        None
    };
    let n_tied = tied_candidates.len();
    let ghost resolved = tied_candidates@;
    for i in 0..n_tied
        invariant
            n_tied == resolved.len(),
            n_tied == end - start,
            tied_candidates@ == resolved,
            ordered@.len() == o.len(),
            forall|p: int| 0 <= p < o.len() && !(start <= p < start + i) ==> #[trigger] ordered@[p] == o[p],
            forall|p: int| start <= p < start + i ==> #[trigger] ordered@[p] == (SelectVotesToSetAsideByTV {
                candidate: resolved[resolved.len() - 1 - (p - start)],
                ..o[p]
            }),
    {
        let mut e = ordered[i + start];
        e.candidate = tied_candidates[n_tied - 1 - i];
        ordered.set(i + start, e);
    }
    assert(ordered@ =~= with_resolved(o, start as int, end as int, resolved));
    res
}

/// The first `extra` entries get one more whole paper.
fn round_up_first(ordered: &mut Vec<SelectVotesToSetAsideByTV>, extra: usize)
    requires
        extra <= old(ordered)@.len(),
        forall|p: int| 0 <= p < extra ==> (#[trigger] old(ordered)@[p]).integer_portion.0 < old(ordered)@[p].distributed.0,
    ensures
        final(ordered)@ == rounded_up(old(ordered)@, extra as int),
{
    let ghost o = ordered@;
    for i in 0..extra
        invariant
            extra <= o.len(),
            forall|p: int| 0 <= p < extra ==> (#[trigger] o[p]).integer_portion.0 < o[p].distributed.0,
            ordered@.len() == o.len(),
            forall|p: int| 0 <= p < o.len() && !(0 <= p < i) ==> #[trigger] ordered@[p] == o[p],
            forall|p: int| 0 <= p < i ==> #[trigger] ordered@[p] == (SelectVotesToSetAsideByTV {
                integer_portion: BallotPaperCount((o[p].integer_portion.0 + 1) as usize),
                ..o[p]
            }),
    {
        let mut e = ordered[i];
        assert(e == o[i as int]);
        e.integer_portion = BallotPaperCount(e.integer_portion.0 + 1);
        ordered.set(i, e);
    }
    assert(ordered@ =~= rounded_up(o, extra as int));
}

/// For each candidate, the papers distributed less those transferred, by the entry for it.
fn set_aside_by_candidate(ordered: &Vec<SelectVotesToSetAsideByTV>, num_candidates: usize) -> (res: Vec<BallotPaperCount>)
    requires
        forall|p: int| 0 <= p < ordered@.len() ==> (#[trigger] ordered@[p]).integer_portion.0 <= ordered@[p].distributed.0,
    ensures
        res@.len() == num_candidates,
        forall|c: int| 0 <= c < num_candidates ==> (#[trigger] res@[c]).0 == set_aside_of(ordered@, num_candidates as int)[c],
{
    let mut res: Vec<BallotPaperCount> = Vec::new();
    for c in 0..num_candidates
        invariant
            forall|p: int| 0 <= p < ordered@.len() ==> (#[trigger] ordered@[p]).integer_portion.0 <= ordered@[p].distributed.0,
            res@.len() == c,
            forall|k: int| 0 <= k < c ==> (#[trigger] res@[k]).0 == set_aside_of(ordered@, num_candidates as int)[k],
    {
        let mut found = false;
        let mut value: usize = 0;
        for p in 0..ordered.len()
            invariant
                forall|q: int| 0 <= q < ordered@.len() ==> (#[trigger] ordered@[q]).integer_portion.0 <= ordered@[q].distributed.0,
                found == position_of(ordered@.take(p as int), c as int) is Some,
                found ==> value == ordered@[position_of(ordered@.take(p as int), c as int)->0].distributed.0
                    - ordered@[position_of(ordered@.take(p as int), c as int)->0].integer_portion.0,
                !found ==> value == 0,
                found ==> 0 <= position_of(ordered@.take(p as int), c as int)->0 < p,
        {
            assert(ordered@.take(p + 1).drop_last() =~= ordered@.take(p as int));
            assert(ordered@.take(p + 1).last() == ordered@[p as int]);
            if !found && ordered[p].candidate.0 == c {
                found = true;
                value = ordered[p].distributed.0 - ordered[p].integer_portion.0;
            }
        }
        assert(ordered@.take(ordered@.len() as int) =~= ordered@);
        res.push(BallotPaperCount(value));
    }
    res
}

impl TransferValue {
    /// Work out how many ballot papers of each candidate are set aside so that the right number of
    /// papers are transferred: each candidate transfers the whole part of the transfer value times
    /// its papers, and the papers left over from the surplus go one each to those with the largest
    /// fractional parts (then the largest whole parts, then the earliest on the ballot). A tie in the
    /// number of papers at the boundary is resolved by a countback using any difference; a decision
    /// of the electoral commission is needed (and reported) if that does not resolve it.
    pub fn calculate_number_of_ballot_papers_to_be_set_aside<Tally: TallyValue>(
        &self,
        surplus: BallotPaperCount,
        num_candidates: usize,
        transcript: &Transcript<Tally>,
        distributed: &DistributedVotes<'_>,
    ) -> (res: (Vec<BallotPaperCount>, Option<DecisionMadeByEC>))
        requires
            self.wf(),
            num_candidates <= distributed.by_candidate@.len(),
            forall|c: int| 0 <= c < num_candidates ==> (self.numerator * distributed.by_candidate@[c].num_ballots.0) / (
            self.denominator as int) <= usize::MAX,
            self.numerator != self.denominator ==> ({
                let entries = Seq::new(
                    num_candidates as nat,
                    |c: int| entry_of(*self, distributed.by_candidate@[c].num_ballots.0, c),
                );
                let extra = surplus.0 - total_whole(entries);
                let o = in_order(entries);
                &&& total_whole(entries) <= surplus.0
                &&& forall|c: int| 0 <= c < num_candidates ==> (#[trigger] entries[c]).integer_portion.0 <= entries[c].distributed.0
                &&& extra > 0 ==> extra < num_candidates
                &&& extra > 0 ==> forall|k: int|
                    0 <= k < transcript.counts@.len() ==> num_candidates <= (#[trigger] transcript.counts@[k]).status.tallies.candidate@.len()
                &&& extra > 0 ==> forall|p: int|
                    0 <= p < extra ==> (#[trigger] boundary_resolved(transcript.counts@, o, extra)[p]).integer_portion.0
                        < boundary_resolved(transcript.counts@, o, extra)[p].distributed.0
            }),
        ensures
            self.numerator == self.denominator ==> res.0@ == Seq::new(num_candidates as nat, |_c: int| BallotPaperCount(0))
                && res.1 is None,
            self.numerator != self.denominator ==> ({
                let entries = Seq::new(
                    num_candidates as nat,
                    |c: int| entry_of(*self, distributed.by_candidate@[c].num_ballots.0, c),
                );
                let extra = surplus.0 - total_whole(entries);
                let o = in_order(entries);
                &&& res.0@.len() == num_candidates
                &&& extra == 0 ==> (forall|c: int|
                    0 <= c < num_candidates ==> (#[trigger] res.0@[c]).0 == entries[c].distributed.0
                        - entries[c].integer_portion.0) && res.1 is None
                &&& extra > 0 ==> forall|c: int|
                    0 <= c < num_candidates ==> (#[trigger] res.0@[c]).0 == set_aside_of(
                        final_entries(transcript.counts@, o, extra),
                        num_candidates as int,
                    )[c]
                &&& extra > 0 ==> if o[extra - 1].distributed.0 == o[extra].distributed.0 {
                    let (start, end, resolved, unresolved) = boundary_tie(transcript.counts@, o, extra);
                    if unresolved.len() == 0 {
                        res.1 is None
                    } else {
                        res.1 matches Some(d) && d.affected@ == resolved
                    }
                } else {
                    res.1 is None
                }
            }),
    {
        if self.is_one() {
            let mut zeros: Vec<BallotPaperCount> = Vec::new();
            for i in 0..num_candidates
                invariant
                    zeros@ == Seq::new(i as nat, |_c: int| BallotPaperCount(0)),
            {
                zeros.push(BallotPaperCount(0));
                assert(zeros@ =~= Seq::new((i + 1) as nat, |_c: int| BallotPaperCount(0)));
            }
            return (zeros, None);
        }
        let entries = compute_entries(self, num_candidates, distributed);
        let ghost es = entries@;
        let whole = match sum_whole(&entries, surplus.0) {
            Some(w) => w,
            None => {
                assert(false);
                0
            },
        };
        let extra: usize = surplus.0 - whole;
        if extra == 0 {
            let res = set_aside_unrounded(&entries);
            return (res, None);
        }
        let mut ordered = order_entries(entries);
        let ghost o = ordered@;
        proof {
            lemma_in_order(es, num_candidates as int);
            assert(entries_sound(es, num_candidates as int));
        }
        let decision = resolve_boundary(&mut ordered, extra, transcript, num_candidates);
        let ghost resolved_entries = ordered@;
        assert(boundary_resolved(transcript.counts@, o, extra as int) == resolved_entries);
        round_up_first(&mut ordered, extra);
        assert forall|p: int| 0 <= p < ordered@.len() implies (#[trigger] ordered@[p]).integer_portion.0 <= ordered@[p].distributed.0 by {
            if p >= extra {
                assert(ordered@[p] == resolved_entries[p]);
                assert(resolved_entries[p].integer_portion == o[p].integer_portion);
                assert(resolved_entries[p].distributed == o[p].distributed);
            }
        }
        let res = set_aside_by_candidate(&ordered, num_candidates);
        (res, decision)
    }
}

/// For each candidate, the papers distributed less the whole number transferred.
fn set_aside_unrounded(entries: &Vec<SelectVotesToSetAsideByTV>) -> (res: Vec<BallotPaperCount>)
    requires
        forall|c: int| 0 <= c < entries@.len() ==> (#[trigger] entries@[c]).integer_portion.0 <= entries@[c].distributed.0,
    ensures
        res@.len() == entries@.len(),
        forall|c: int| 0 <= c < entries@.len() ==> (#[trigger] res@[c]).0 == entries@[c].distributed.0 - entries@[c].integer_portion.0,
{
    let mut res: Vec<BallotPaperCount> = Vec::new();
    for c in 0..entries.len()
        invariant
            forall|k: int| 0 <= k < entries@.len() ==> (#[trigger] entries@[k]).integer_portion.0 <= entries@[k].distributed.0,
            res@.len() == c,
            forall|k: int| 0 <= k < c ==> (#[trigger] res@[k]).0 == entries@[k].distributed.0 - entries@[k].integer_portion.0,
    {
        res.push(BallotPaperCount(entries[c].distributed.0 - entries[c].integer_portion.0));
    }
    res
}

} // verus!
