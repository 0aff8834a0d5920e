//! The votes of an election, with the metadata describing it.

use vstd::prelude::*;
use vstd::hash_set::StringHashSet;
use std::ops::Range;
use crate::ballot_metadata::ElectionMetadata;
use crate::ballot_paper::{ATL, BTL, VoteSource, party_candidates, parties_known};
use crate::ballot_metadata::CandidateIndex;
use crate::ballot_pile::{BallotPaperCount, PartiallyDistributedVote};
use crate::transfer_value::{TransferValue, less_value, same_value};

verus! {

/// All the formal votes of an election.
#[derive(Debug, Clone)]
pub struct ElectionData {
    pub metadata: ElectionMetadata,
    pub atl: Vec<ATL>,
    pub atl_types: Vec<VoteTypeSpecification>,
    pub atl_transfer_values: Vec<VoteValueSpecification>,
    pub btl: Vec<BTL>,
    pub btl_types: Vec<VoteTypeSpecification>,
    pub btl_transfer_values: Vec<VoteValueSpecification>,
    /// number of informal votes
    pub informal: usize,
}

/// What the votes in a range of positions are (an electoral commission's designation).
#[derive(Debug, Clone)]
pub struct VoteTypeSpecification {
    pub vote_type: String,
    pub first_index_inclusive: usize,
    pub last_index_exclusive: usize,
}

/// What the votes in a range of positions are worth.
#[derive(Debug, Clone)]
pub struct VoteValueSpecification {
    pub value: TransferValue,
    pub first_index_inclusive: usize,
    pub last_index_exclusive: usize,
}

/// The positions of a range, as a pair.
pub open spec fn range_pair(r: Range<usize>) -> (usize, usize) {
    (r.start, r.end)
}

/// The positions of a list of ranges, as pairs.
pub open spec fn range_pairs(rs: Seq<Range<usize>>) -> Seq<(usize, usize)> {
    rs.map_values(|r: Range<usize>| range_pair(r))
}

impl VoteValueSpecification {
    /// The positions the value applies to.
    pub fn range(&self) -> (res: Range<usize>)
        ensures
            res.start == self.first_index_inclusive,
            res.end == self.last_index_exclusive,
    {
        self.first_index_inclusive..self.last_index_exclusive
    }
}

/// Insert the position of a specification after those of all the specifications that start no
/// later than it does.
pub open spec fn insert_by_start(s: Seq<int>, x: int, specs: Seq<VoteTypeSpecification>) -> Seq<int>
    decreases s.len(),
{
    if s.len() == 0 {
        seq![x]
    } else if specs[s.last()].first_index_inclusive <= specs[x].first_index_inclusive {
        s.push(x)
    } else {
        insert_by_start(s.drop_last(), x, specs).push(s.last())
    }
}

/// The positions of the first `n` specifications in order of their start, those starting
/// together in their original order.
pub open spec fn sorted_positions(n: int, specs: Seq<VoteTypeSpecification>) -> Seq<int>
    decreases n,
{
    if n <= 0 {
        Seq::empty()
    } else {
        insert_by_start(sorted_positions(n - 1, specs), n - 1, specs)
    }
}

/// The specifications in order of their start, those starting together in their original order.
pub open spec fn sorted_by_start(specs: Seq<VoteTypeSpecification>) -> Seq<VoteTypeSpecification> {
    sorted_positions(specs.len() as int, specs).map_values(|i: int| specs[i])
}

/// The ranges wanted, going through the specifications in order from position `upto`: the gap
/// before each (if unspecified votes are wanted), then the specification's own range if its
/// type is wanted, and at the end what is left up to `largest_index` (if unspecified votes are wanted).
pub open spec fn restrict_from(
    order: Seq<VoteTypeSpecification>,
    ok_types: Seq<Seq<char>>,
    blank: bool,
    upto: usize,
    largest_index: usize,
) -> Seq<(usize, usize)>
    decreases order.len(),
{
    if order.len() == 0 {
        if blank && upto < largest_index {
            seq![(upto, largest_index)]
        } else {
            Seq::empty()
        }
    } else {
        let s = order[0];
        let gap = if blank && upto < s.first_index_inclusive {
            seq![(upto, s.first_index_inclusive)]
        } else {
            Seq::empty()
        };
        let own = if ok_types.contains(s.vote_type@) {
            seq![(s.first_index_inclusive, s.last_index_exclusive)]
        } else {
            Seq::empty()
        };
        gap + own + restrict_from(order.skip(1), ok_types, blank, s.last_index_exclusive, largest_index)
    }
}

/// The texts of a list of strings.
pub open spec fn string_texts(v: Seq<String>) -> Seq<Seq<char>> {
    v.map_values(|s: String| s@)
}

impl VoteTypeSpecification {
    /// Find the indices of votes that pass restrictions on the types used.
    ///
    /// If `vote_types` is None, there is no restriction: just [0..largest_index].
    /// If `vote_types` is Some, take only votes whose type is in it; if the empty string is in
    /// it, also take votes that no specification covers.
    pub fn restrict(vote_types: Option<&[String]>, specs: &[VoteTypeSpecification], largest_index: usize) -> (res: Vec<Range<usize>>)
        ensures
            range_pairs(res@) == match vote_types {
                None => seq![(0usize, largest_index)],
                Some(ok) => restrict_from(
                    sorted_by_start(specs@),
                    string_texts(ok@),
                    string_texts(ok@).contains(Seq::<char>::empty()),
                    0,
                    largest_index,
                ),
            },
    {
        match vote_types {
            None => {
                let mut res: Vec<Range<usize>> = Vec::new();
                res.push(0..largest_index);
                assert(range_pairs(res@) =~= seq![(0usize, largest_index)]);
                res
            },
            Some(ok_types) => {
                let positions = sort_by_start(specs);
                let ghost order_seq = sorted_by_start(specs@);
                assert(order_seq.len() == positions@.len());
                let mut contains_blank = false;
                for i in 0..ok_types.len()
                    invariant
                        contains_blank == exists|j: int| 0 <= j < i && (#[trigger] ok_types@[j])@.len() == 0,
                {
                    if ok_types[i].as_str().is_empty() {
                        contains_blank = true;
                    }
                }
                assert(contains_blank == string_texts(ok_types@).contains(Seq::<char>::empty())) by {
                    if contains_blank {
                        let j = choose|j: int| 0 <= j < ok_types@.len() && (#[trigger] ok_types@[j])@.len() == 0;
                        assert(string_texts(ok_types@)[j] =~= Seq::<char>::empty());
                    }
                    if string_texts(ok_types@).contains(Seq::<char>::empty()) {
                        let j = choose|j: int| 0 <= j < ok_types@.len() && string_texts(ok_types@)[j] == Seq::<char>::empty();
                        assert(ok_types@[j]@.len() == 0);
                    }
                }
                let ghost ok = string_texts(ok_types@);
                let mut res: Vec<Range<usize>> = Vec::new();
                let mut upto: usize = 0;
                assert(order_seq.skip(0) =~= order_seq);
                assert(range_pairs(res@) =~= Seq::<(usize, usize)>::empty());
                for k in 0..positions.len()
                    invariant
                        ok == string_texts(ok_types@),
                        order_seq == sorted_by_start(specs@),
                        order_seq.len() == positions@.len(),
                        positions@.map_values(|i: usize| i as int) == sorted_positions(specs@.len() as int, specs@),
                        forall|q: int| 0 <= q < positions@.len() ==> (#[trigger] positions@[q]) < specs@.len(),
                        restrict_from(order_seq, ok, contains_blank, 0, largest_index) == range_pairs(res@) + restrict_from(
                            order_seq.skip(k as int),
                            ok,
                            contains_blank,
                            upto,
                            largest_index,
                        ),
                {
                    let spec = &specs[positions[k]];
                    proof {
                        assert(positions@.map_values(|i: usize| i as int)[k as int] == positions@[k as int] as int);
                        assert(order_seq[k as int] == *spec);
                        assert(order_seq.skip(k as int)[0] == order_seq[k as int]);
                        assert(order_seq.skip(k as int).skip(1) =~= order_seq.skip(k + 1));
                    }
                    let ghost before = range_pairs(res@);
                    let ghost gap: Seq<(usize, usize)> = if contains_blank && upto < spec.first_index_inclusive {
                        seq![(upto, spec.first_index_inclusive)]
                    } else {
                        Seq::empty()
                    };
                    if contains_blank && upto < spec.first_index_inclusive {
                        res.push(upto..spec.first_index_inclusive);
                    }
                    assert(range_pairs(res@) =~= before + gap);
                    let ghost mid = range_pairs(res@);
                    let wanted = contains_text(ok_types, spec.vote_type.as_str());
                    if wanted {
                        res.push(spec.first_index_inclusive..spec.last_index_exclusive);
                    }
                    assert(range_pairs(res@) =~= mid + if ok.contains(spec.vote_type@) {
                        seq![(spec.first_index_inclusive, spec.last_index_exclusive)]
                    } else {
                        Seq::<(usize, usize)>::empty()
                    });
                    upto = spec.last_index_exclusive;
                }
                let ghost before = range_pairs(res@);
                if contains_blank && upto < largest_index {
                    res.push(upto..largest_index);
                }
                assert(order_seq.skip(order_seq.len() as int) =~= Seq::<VoteTypeSpecification>::empty());
                assert(range_pairs(res@) =~= before + restrict_from(
                    order_seq.skip(order_seq.len() as int),
                    ok,
                    contains_blank,
                    upto,
                    largest_index,
                ));
                res
            },
        }
    }

    /// The positions the type applies to.
    pub fn range(&self) -> (res: Range<usize>)
        ensures
            res.start == self.first_index_inclusive,
            res.end == self.last_index_exclusive,
    {
        self.first_index_inclusive..self.last_index_exclusive
    }
}

/// True iff one of the strings has the given text.
fn contains_text(v: &[String], t: &str) -> (res: bool)
    ensures
        res == string_texts(v@).contains(t@),
{
    for i in 0..v.len()
        invariant
            forall|j: int| 0 <= j < i ==> (#[trigger] v@[j])@ != t@,
    {
        if crate::text::str_equals(v[i].as_str(), t) {
            assert(string_texts(v@)[i as int] == t@);
            return true;
        }
    }
    assert(!string_texts(v@).contains(t@)) by {
        if string_texts(v@).contains(t@) {
            let j = choose|j: int| 0 <= j < v@.len() && string_texts(v@)[j] == t@;
            assert(v@[j]@ == t@);
        }
    }
    false
}

/// The positions of the specifications in order of their start, those starting together in
/// their original order.
fn sort_by_start(specs: &[VoteTypeSpecification]) -> (res: Vec<usize>)
    ensures
        res@.map_values(|i: usize| i as int) == sorted_positions(specs@.len() as int, specs@),
        forall|k: int| 0 <= k < res@.len() ==> (#[trigger] res@[k]) < specs@.len(),
{
    let mut res: Vec<usize> = Vec::new();
    for i in 0..specs.len()
        invariant
            res@.map_values(|i: usize| i as int) == sorted_positions(i as int, specs@),
            forall|k: int| 0 <= k < res@.len() ==> (#[trigger] res@[k]) < i,
    {
        let ghost rv = res@.map_values(|i: usize| i as int);
        let x = specs[i].first_index_inclusive;
        let mut j = res.len();
        assert(rv.take(j as int) =~= rv);
        assert(rv.skip(j as int) =~= Seq::<int>::empty());
        while j > 0 && specs[res[j - 1]].first_index_inclusive > x
            invariant
                j <= res@.len(),
                i < specs@.len(),
                rv == res@.map_values(|i: usize| i as int),
                forall|k: int| 0 <= k < res@.len() ==> (#[trigger] res@[k]) < i,
                x == specs@[i as int].first_index_inclusive,
                insert_by_start(rv, i as int, specs@) == insert_by_start(rv.take(j as int), i as int, specs@) + rv.skip(
                    j as int,
                ),
            decreases j,
        {
            assert(rv.take(j as int).drop_last() =~= rv.take(j - 1));
            assert(rv.take(j as int).last() == rv[j - 1]);
            assert(rv.skip(j - 1) =~= seq![rv[j - 1]] + rv.skip(j as int));
            assert(insert_by_start(rv.take(j - 1), i as int, specs@).push(rv[j - 1]) + rv.skip(j as int) =~= insert_by_start(
                rv.take(j - 1),
                i as int,
                specs@,
            ) + rv.skip(j - 1));
            j = j - 1;
        }
        proof {
            if j > 0 {
                assert(rv.take(j as int).last() == rv[j - 1]);
            }
            assert(insert_by_start(rv.take(j as int), i as int, specs@) =~= rv.take(j as int).push(i as int));
        }
        res.insert(j, i);
        assert(res@.map_values(|i: usize| i as int) =~= rv.take(j as int).push(i as int) + rv.skip(j as int));
    }
    res
}

/// The number of votes of each ATL vote.
pub open spec fn atl_counts(v: Seq<ATL>) -> Seq<usize> {
    v.map_values(|a: ATL| a.n)
}

/// The number of votes of each BTL vote.
pub open spec fn btl_counts(v: Seq<BTL>) -> Seq<usize> {
    v.map_values(|b: BTL| b.n)
}

/// The sum of a list of numbers.
pub open spec fn total(s: Seq<usize>) -> nat
    decreases s.len(),
{
    if s.len() == 0 {
        0
    } else {
        total(s.drop_last()) + s.last() as nat
    }
}

/// A prefix sums to no more than the whole.
pub proof fn lemma_total_prefix(s: Seq<usize>, i: int)
    requires
        0 <= i <= s.len(),
    ensures
        total(s.take(i)) <= total(s),
    decreases s.len() - i,
{
    if i < s.len() {
        lemma_total_prefix(s, i + 1);
        assert(s.take(i + 1).drop_last() =~= s.take(i));
    } else {
        assert(s.take(i) =~= s);
    }
}

/// The sum of a list of numbers.
fn sum_counts(s: &Vec<usize>) -> (res: usize)
    requires
        total(s@) <= usize::MAX,
    ensures
        res == total(s@),
{
    let mut res: usize = 0;
    for i in 0..s.len()
        invariant
            total(s@) <= usize::MAX,
            res == total(s@.take(i as int)),
    {
        proof {
            assert(s@.take(i + 1).drop_last() =~= s@.take(i as int));
            lemma_total_prefix(s@, i + 1);
        }
        res = res + s[i];
    }
    assert(s@.take(s@.len() as int) =~= s@);
    res
}

/// The vote counts of ATL votes in a range.
fn atl_counts_in(v: &Vec<ATL>, start: usize, end: usize) -> (res: Vec<usize>)
    requires
        start <= end <= v@.len(),
    ensures
        res@ == atl_counts(v@).subrange(start as int, end as int),
{
    let mut res: Vec<usize> = Vec::new();
    for i in start..end
        invariant
            start <= end <= v@.len(),
            res@ == atl_counts(v@).subrange(start as int, i as int),
    {
        res.push(v[i].n);
        assert(atl_counts(v@).subrange(start as int, i + 1) =~= atl_counts(v@).subrange(start as int, i as int).push(v@[i as int].n));
    }
    res
}

/// The vote counts of BTL votes in a range.
fn btl_counts_in(v: &Vec<BTL>, start: usize, end: usize) -> (res: Vec<usize>)
    requires
        start <= end <= v@.len(),
    ensures
        res@ == btl_counts(v@).subrange(start as int, end as int),
{
    let mut res: Vec<usize> = Vec::new();
    for i in start..end
        invariant
            start <= end <= v@.len(),
            res@ == btl_counts(v@).subrange(start as int, i as int),
    {
        res.push(v[i].n);
        assert(btl_counts(v@).subrange(start as int, i + 1) =~= btl_counts(v@).subrange(start as int, i as int).push(v@[i as int].n));
    }
    res
}

/// Whether some specification covering the position has a type not considered unverifiable.
pub open spec fn verifiable_at(types: Seq<VoteTypeSpecification>, index: usize, unverifiable: Set<Seq<char>>) -> bool {
    exists|i: int|
        0 <= i < types.len() && (#[trigger] types[i]).first_index_inclusive <= index < types[i].last_index_exclusive
            && !unverifiable.contains(types[i].vote_type@)
}

impl ElectionData {
    /// Number of formal above the line votes.
    pub fn num_atl(&self) -> (res: usize)
        requires
            total(atl_counts(self.atl@)) <= usize::MAX,
        ensures
            res == total(atl_counts(self.atl@)),
    {
        let counts = atl_counts_in(&self.atl, 0, self.atl.len());
        assert(atl_counts(self.atl@).subrange(0, self.atl@.len() as int) =~= atl_counts(self.atl@));
        sum_counts(&counts)
    }

    /// Number of formal above the line votes in a range of positions.
    pub fn num_atl_range(&self, range: Range<usize>) -> (res: usize)
        requires
            range.start <= range.end <= self.atl@.len(),
            total(atl_counts(self.atl@).subrange(range.start as int, range.end as int)) <= usize::MAX,
        ensures
            res == total(atl_counts(self.atl@).subrange(range.start as int, range.end as int)),
    {
        let counts = atl_counts_in(&self.atl, range.start, range.end);
        sum_counts(&counts)
    }

    /// Number of formal above the line votes with only one preference listed.
    pub fn num_satl(&self) -> (res: usize)
        requires
            total(atl_counts(self.atl@)) <= usize::MAX,
        ensures
            res == total(single_atl_counts(self.atl@)),
    {
        let mut counts: Vec<usize> = Vec::new();
        for i in 0..self.atl.len()
            invariant
                counts@ == single_atl_counts(self.atl@.take(i as int)),
        {
            assert(self.atl@.take(i + 1).drop_last() =~= self.atl@.take(i as int));
            if self.atl[i].parties.len() == 1 {
                counts.push(self.atl[i].n);
            }
        }
        assert(self.atl@.take(self.atl@.len() as int) =~= self.atl@);
        proof {
            lemma_single_atl_total(self.atl@);
        }
        sum_counts(&counts)
    }

    /// Number of formal below the line votes.
    pub fn num_btl(&self) -> (res: usize)
        requires
            total(btl_counts(self.btl@)) <= usize::MAX,
        ensures
            res == total(btl_counts(self.btl@)),
    {
        let counts = btl_counts_in(&self.btl, 0, self.btl.len());
        assert(btl_counts(self.btl@).subrange(0, self.btl@.len() as int) =~= btl_counts(self.btl@));
        sum_counts(&counts)
    }

    /// Number of formal below the line votes in a range of positions.
    pub fn num_btl_range(&self, range: Range<usize>) -> (res: usize)
        requires
            range.start <= range.end <= self.btl@.len(),
            total(btl_counts(self.btl@).subrange(range.start as int, range.end as int)) <= usize::MAX,
        ensures
            res == total(btl_counts(self.btl@).subrange(range.start as int, range.end as int)),
    {
        let counts = btl_counts_in(&self.btl, range.start, range.end);
        sum_counts(&counts)
    }

    /// Number of formal votes.
    pub fn num_votes(&self) -> (res: usize)
        requires
            total(atl_counts(self.atl@)) + total(btl_counts(self.btl@)) <= usize::MAX,
        ensures
            res == total(atl_counts(self.atl@)) + total(btl_counts(self.btl@)),
    {
        self.num_atl() + self.num_btl()
    }

    /// Whether an ATL vote is of a type that can be verified.
    pub fn is_atl_verifiable(&self, atl_index: usize, ballot_types_considered_unverifiable: &StringHashSet) -> (res: bool)
        ensures
            res == verifiable_at(self.atl_types@, atl_index, ballot_types_considered_unverifiable@),
    {
        is_verifiable(&self.atl_types, atl_index, ballot_types_considered_unverifiable)
    }

    /// Whether a BTL vote is of a type that can be verified.
    pub fn is_btl_verifiable(&self, btl_index: usize, ballot_types_considered_unverifiable: &StringHashSet) -> (res: bool)
        ensures
            res == verifiable_at(self.btl_types@, btl_index, ballot_types_considered_unverifiable@),
    {
        is_verifiable(&self.btl_types, btl_index, ballot_types_considered_unverifiable)
    }
}

/// Whether some specification covering the position has a type not considered unverifiable.
fn is_verifiable(types: &Vec<VoteTypeSpecification>, index: usize, unverifiable: &StringHashSet) -> (res: bool)
    ensures
        res == verifiable_at(types@, index, unverifiable@),
{
    for i in 0..types.len()
        invariant
            forall|j: int|
                0 <= j < i ==> !((#[trigger] types@[j]).first_index_inclusive <= index < types@[j].last_index_exclusive
                    && !unverifiable@.contains(types@[j].vote_type@)),
    {
        let t = &types[i];
        if t.first_index_inclusive <= index && index < t.last_index_exclusive && !unverifiable.contains(t.vote_type.as_str()) {
            assert(types@[i as int] == *t);
            return true;
        }
    }
    false
}

/// The vote counts of ATL votes with a single party.
pub open spec fn single_atl_counts(v: Seq<ATL>) -> Seq<usize>
    decreases v.len(),
{
    if v.len() == 0 {
        Seq::empty()
    } else if v.last().parties@.len() == 1 {
        single_atl_counts(v.drop_last()).push(v.last().n)
    } else {
        single_atl_counts(v.drop_last())
    }
}

proof fn lemma_single_atl_total(v: Seq<ATL>)
    ensures
        total(single_atl_counts(v)) <= total(atl_counts(v)),
    decreases v.len(),
{
    if v.len() > 0 {
        lemma_single_atl_total(v.drop_last());
        assert(atl_counts(v).drop_last() =~= atl_counts(v.drop_last()));
        assert(atl_counts(v).last() == v.last().n);
        assert(total(atl_counts(v)) == total(atl_counts(v.drop_last())) + v.last().n);
        if v.last().parties@.len() == 1 {
            let p = single_atl_counts(v.drop_last());
            assert(p.push(v.last().n).drop_last() =~= p);
            assert(total(single_atl_counts(v)) == total(p) + v.last().n);
        }
    }
}

} // verus!

verus! {

/// The whole numbers from `a` up to but not including `b`.
pub open spec fn span(a: int, b: int) -> Seq<int> {
    Seq::new((b - a) as nat, |k: int| a + k)
}

/// The positions in some ranges, range by range.
pub open spec fn positions_in(ranges: Seq<(usize, usize)>) -> Seq<int>
    decreases ranges.len(),
{
    if ranges.len() == 0 {
        Seq::empty()
    } else {
        positions_in(ranges.drop_last()) + span(ranges.last().0 as int, ranges.last().1 as int)
    }
}

/// The ranges of the votes of the wanted types, as `VoteTypeSpecification::restrict` gives them.
pub open spec fn restricted(vote_types: Option<&[String]>, specs: Seq<VoteTypeSpecification>, largest_index: usize) -> Seq<(usize, usize)> {
    match vote_types {
        None => seq![(0usize, largest_index)],
        Some(ok) => restrict_from(
            sorted_by_start(specs),
            string_texts(ok@),
            string_texts(ok@).contains(Seq::<char>::empty()),
            0,
            largest_index,
        ),
    }
}

/// Each range runs forward and ends within the first `n` positions.
pub open spec fn ranges_within(ranges: Seq<(usize, usize)>, n: nat) -> bool {
    forall|i: int| 0 <= i < ranges.len() ==> (#[trigger] ranges[i]).0 <= ranges[i].1 <= n
}

/// The positions of a list of ranges are the ones that come before in the list, then those of the last.
proof fn lemma_positions_step(rs: Seq<(usize, usize)>, ri: int)
    requires
        0 <= ri < rs.len(),
    ensures
        positions_in(rs.take(ri + 1)) == positions_in(rs.take(ri)) + span(rs[ri].0 as int, rs[ri].1 as int),
{
    assert(rs.take(ri + 1).drop_last() =~= rs.take(ri));
}

/// The positions of votes within range are within range.
proof fn lemma_positions_within(rs: Seq<(usize, usize)>, n: nat)
    requires
        ranges_within(rs, n),
    ensures
        forall|k: int| 0 <= k < positions_in(rs).len() ==> 0 <= #[trigger] positions_in(rs)[k] < n,
    decreases rs.len(),
{
    if rs.len() > 0 {
        let d = rs.drop_last();
        assert(ranges_within(d, n)) by {
            assert forall|i: int| 0 <= i < d.len() implies (#[trigger] d[i]).0 <= d[i].1 <= n by {
                assert(d[i] == rs[i]);
            }
        }
        lemma_positions_within(d, n);
        let last = rs.last();
        assert(last == rs[rs.len() - 1]);
        assert forall|k: int| 0 <= k < positions_in(rs).len() implies 0 <= #[trigger] positions_in(rs)[k] < n by {
            if k < positions_in(d).len() {
                assert(positions_in(rs)[k] == positions_in(d)[k]);
            } else {
                assert(positions_in(rs)[k] == span(last.0 as int, last.1 as int)[k - positions_in(d).len()]);
            }
        }
    }
}

/// The vote that ATL vote `p` gives, with the given preferences.
pub open spec fn atl_vote<'a>(atl: Seq<ATL>, p: int, prefs: Seq<CandidateIndex>, v: PartiallyDistributedVote<'a>) -> bool {
    &&& v.upto == 0
    &&& v.n == BallotPaperCount(atl[p].n)
    &&& v.prefs@ == prefs
    &&& v.source == VoteSource::Atl(&atl[p])
}

/// The vote that BTL vote `p` gives.
pub open spec fn btl_vote<'a>(btl: Seq<BTL>, p: int, v: PartiallyDistributedVote<'a>) -> bool {
    &&& v.upto == 0
    &&& v.n == BallotPaperCount(btl[p].n)
    &&& v.prefs@ == btl[p].candidates@
    &&& v.source == VoteSource::Btl(&btl[p])
}

impl ElectionData {
    /// The preferences that each ATL vote resolves to: the candidates of each party voted for,
    /// in the party's order.
    pub fn resolve_atl_preferences(&self) -> (res: Vec<Vec<CandidateIndex>>)
        requires
            forall|i: int| 0 <= i < self.atl@.len() ==> parties_known(#[trigger] self.atl@[i].parties@, self.metadata.parties@.len()),
        ensures
            res@.len() == self.atl@.len(),
            forall|p: int| 0 <= p < res@.len() ==> (#[trigger] res@[p])@ == party_candidates(self.atl@[p].parties@, self.metadata.parties@),
    {
        let mut res: Vec<Vec<CandidateIndex>> = Vec::new();
        for i in 0..self.atl.len()
            invariant
                forall|i: int| 0 <= i < self.atl@.len() ==> parties_known(#[trigger] self.atl@[i].parties@, self.metadata.parties@.len()),
                res@.len() == i,
                forall|p: int| 0 <= p < i ==> (#[trigger] res@[p])@ == party_candidates(self.atl@[p].parties@, self.metadata.parties@),
        {
            res.push(self.atl[i].resolve_to_candidates(&self.metadata));
        }
        res
    }

    /// Every wanted vote, not yet distributed: first the ATL votes, with the preferences in
    /// `resolved_atl` (one list for each ATL vote, as `resolve_atl_preferences` gives them), then
    /// the BTL votes, each in the ranges of the wanted types, range by range.
    pub fn resolve_atl<'a>(&'a self, resolved_atl: &'a Vec<Vec<CandidateIndex>>, vote_types: Option<&[String]>) -> (res: Vec<
        PartiallyDistributedVote<'a>,
    >)
        requires
            ranges_within(restricted(vote_types, self.atl_types@, self.atl.len()), self.atl@.len()),
            ranges_within(restricted(vote_types, self.btl_types@, self.btl.len()), self.btl@.len()),
            resolved_atl@.len() == self.atl@.len(),
        ensures
            ({
                let pa = positions_in(restricted(vote_types, self.atl_types@, self.atl.len()));
                let pb = positions_in(restricted(vote_types, self.btl_types@, self.btl.len()));
                &&& res@.len() == pa.len() + pb.len()
                &&& forall|k: int| 0 <= k < pa.len() ==> atl_vote(self.atl@, pa[k], resolved_atl@[pa[k]]@, #[trigger] res@[k])
                &&& forall|k: int| pa.len() <= k < res@.len() ==> btl_vote(self.btl@, pb[k - pa.len()], #[trigger] res@[k])
            }),
    {
        let mut votes: Vec<PartiallyDistributedVote<'a>> = Vec::new();
        let ranges = VoteTypeSpecification::restrict(vote_types, self.atl_types.as_slice(), self.atl.len());
        let ghost rs = range_pairs(ranges@);
        proof {
            lemma_positions_within(rs, self.atl@.len());
        }
        for ri in 0..ranges.len()
            invariant
                rs == range_pairs(ranges@),
                rs == restricted(vote_types, self.atl_types@, self.atl.len()),
                ranges_within(rs, self.atl@.len()),
                resolved_atl@.len() == self.atl@.len(),
                votes@.len() == positions_in(rs.take(ri as int)).len(),
                forall|k: int| 0 <= k < votes@.len() ==> atl_vote(
                    self.atl@,
                    positions_in(rs.take(ri as int))[k],
                    resolved_atl@[positions_in(rs.take(ri as int))[k]]@,
                    #[trigger] votes@[k],
                ),
        {
            let start = ranges[ri].start;
            let end = ranges[ri].end;
            assert(rs[ri as int] == (start, end));
            let ghost done = positions_in(rs.take(ri as int));
            proof {
                lemma_positions_step(rs, ri as int);
            }
            for i in start..end
                invariant
                    start <= end <= self.atl@.len(),
                    resolved_atl@.len() == self.atl@.len(),
                    votes@.len() == done.len() + (i - start),
                    forall|k: int| 0 <= k < votes@.len() ==> atl_vote(
                        self.atl@,
                        (done + span(start as int, i as int))[k],
                        resolved_atl@[(done + span(start as int, i as int))[k]]@,
                        #[trigger] votes@[k],
                    ),
            {
                let v = PartiallyDistributedVote::new(self.atl[i].n, resolved_atl[i].as_slice(), VoteSource::Atl(&self.atl[i]));
                let ghost before = votes@;
                votes.push(v);
                assert forall|k: int| 0 <= k < votes@.len() implies atl_vote(
                    self.atl@,
                    (done + span(start as int, i + 1))[k],
                    resolved_atl@[(done + span(start as int, i + 1))[k]]@,
                    #[trigger] votes@[k],
                ) by {
                    if k < before.len() {
                        assert((done + span(start as int, i + 1))[k] == (done + span(start as int, i as int))[k]);
                    } else {
                        assert((done + span(start as int, i + 1))[k] == i);
                    }
                }
            }
            assert(done + span(start as int, end as int) == positions_in(rs.take(ri + 1)));
        }
        assert(rs.take(rs.len() as int) =~= rs);
        let na = votes.len();
        let branges = VoteTypeSpecification::restrict(vote_types, self.btl_types.as_slice(), self.btl.len());
        let ghost bs = range_pairs(branges@);
        let ghost atl_part = votes@;
        proof {
            lemma_positions_within(bs, self.btl@.len());
        }
        for ri in 0..branges.len()
            invariant
                bs == range_pairs(branges@),
                ranges_within(bs, self.btl@.len()),
                votes@.len() == na + positions_in(bs.take(ri as int)).len(),
                votes@.take(na as int) == atl_part,
                forall|k: int| na <= k < votes@.len() ==> btl_vote(
                    self.btl@,
                    positions_in(bs.take(ri as int))[k - na],
                    #[trigger] votes@[k],
                ),
        {
            let start = branges[ri].start;
            let end = branges[ri].end;
            assert(bs[ri as int] == (start, end));
            let ghost done = positions_in(bs.take(ri as int));
            proof {
                lemma_positions_step(bs, ri as int);
            }
            for i in start..end
                invariant
                    start <= end <= self.btl@.len(),
                    votes@.len() == na + done.len() + (i - start),
                    votes@.take(na as int) == atl_part,
                    forall|k: int| na <= k < votes@.len() ==> btl_vote(
                        self.btl@,
                        (done + span(start as int, i as int))[k - na],
                        #[trigger] votes@[k],
                    ),
            {
                let v = PartiallyDistributedVote::new(self.btl[i].n, self.btl[i].candidates.as_slice(), VoteSource::Btl(&self.btl[i]));
                let ghost before = votes@;
                votes.push(v);
                assert(votes@.take(na as int) =~= before.take(na as int));
                assert forall|k: int| na <= k < votes@.len() implies btl_vote(
                    self.btl@,
                    (done + span(start as int, i + 1))[k - na],
                    #[trigger] votes@[k],
                ) by {
                    if k < before.len() {
                        assert((done + span(start as int, i + 1))[k - na] == (done + span(start as int, i as int))[k - na]);
                    } else {
                        assert((done + span(start as int, i + 1))[k - na] == i);
                    }
                }
            }
            assert(done + span(start as int, end as int) == positions_in(bs.take(ri + 1)));
        }
        assert(bs.take(bs.len() as int) =~= bs);
        assert forall|k: int| 0 <= k < na implies atl_vote(
            self.atl@,
            positions_in(rs)[k],
            resolved_atl@[positions_in(rs)[k]]@,
            #[trigger] votes@[k],
        ) by {
            assert(votes@[k] == atl_part[k]);
        }
        votes
    }
}

} // verus!

verus! {

/// A value and the positions (from, to) it applies to.
pub type ValueRange = (TransferValue, usize, usize);

/// The values of the votes and the positions they apply to; all `n` votes have value one when
/// there are no specifications.
pub open spec fn value_ranges(specs: Seq<VoteValueSpecification>, n: usize) -> Seq<ValueRange> {
    if specs.len() == 0 {
        seq![(TransferValue { numerator: 1, denominator: 1 }, 0usize, n)]
    } else {
        specs.map_values(|s: VoteValueSpecification| (s.value, s.first_index_inclusive, s.last_index_exclusive))
    }
}

/// The larger of two numbers.
pub open spec fn larger(a: usize, b: usize) -> usize {
    if a >= b {
        a
    } else {
        b
    }
}

/// The smaller of two numbers.
pub open spec fn smaller(a: usize, b: usize) -> usize {
    if a <= b {
        a
    } else {
        b
    }
}

/// The ranges, each cut down to the positions from `a` to `b`.
pub open spec fn clipped(rs: Seq<(usize, usize)>, a: usize, b: usize) -> Seq<(usize, usize)> {
    rs.map_values(|r: (usize, usize)| (larger(r.0, a), smaller(r.1, b)))
}

/// The positions of the votes of value `t`: for each value range of that value, in order, the
/// positions in the ranges of the wanted types that it covers.
pub open spec fn value_positions(vrs: Seq<ValueRange>, rs: Seq<(usize, usize)>, t: TransferValue) -> Seq<int>
    decreases vrs.len(),
{
    if vrs.len() == 0 {
        Seq::empty()
    } else {
        value_positions(vrs.drop_last(), rs, t) + if same_value(vrs.last().0, t) {
            positions_in(clipped(rs, vrs.last().1, vrs.last().2))
        } else {
            Seq::empty()
        }
    }
}

/// Every wanted range, cut down to each value range, runs forward and ends within the `n` votes.
pub open spec fn clipped_within(vrs: Seq<ValueRange>, rs: Seq<(usize, usize)>, n: nat) -> bool {
    forall|v: int| 0 <= v < vrs.len() ==> ranges_within(clipped(rs, (#[trigger] vrs[v]).1, vrs[v].2), n)
}

/// The group of votes of value `t` are the ATL votes then the BTL votes at their positions.
pub open spec fn group_is<'a>(
    atl: Seq<ATL>,
    btl: Seq<BTL>,
    resolved: Seq<Vec<CandidateIndex>>,
    pa: Seq<int>,
    pb: Seq<int>,
    votes: Seq<PartiallyDistributedVote<'a>>,
) -> bool {
    &&& votes.len() == pa.len() + pb.len()
    &&& forall|k: int| 0 <= k < pa.len() ==> atl_vote(atl, pa[k], resolved[pa[k]]@, #[trigger] votes[k])
    &&& forall|k: int| pa.len() <= k < votes.len() ==> btl_vote(btl, pb[k - pa.len()], #[trigger] votes[k])
}

/// A value of one of the value ranges.
pub open spec fn value_of_some(vrs: Seq<ValueRange>, t: TransferValue) -> bool {
    exists|v: int| 0 <= v < vrs.len() && same_value(#[trigger] vrs[v].0, t)
}

/// The value is one of the values in the list.
pub open spec fn listed(values: Seq<TransferValue>, t: TransferValue) -> bool {
    exists|i: int| 0 <= i < values.len() && same_value(#[trigger] values[i], t)
}

/// An at least as large as b, b at least as large as c: a at least as large as c.
proof fn lemma_tv_not_less_transitive(a: TransferValue, b: TransferValue, c: TransferValue)
    requires
        a.wf(),
        b.wf(),
        c.wf(),
        !less_value(a, b),
        !less_value(b, c),
    ensures
        !less_value(a, c),
{
    let (an, ad, bn, bd, cn, cd) = (a.numerator as int, a.denominator as int, b.numerator as int, b.denominator as int, c.numerator as int, c.denominator as int);
    assert(an * cd >= cn * ad) by (nonlinear_arith)
        requires
            an * bd >= bn * ad,
            bn * cd >= cn * bd,
            ad > 0,
            bd > 0,
            cd > 0,
            an >= 0,
            bn >= 0,
            cn >= 0,
    ;
}

/// The values of the value ranges, each once (the first of those that are the same), highest first.
fn distinct_values_descending(vrs: &Vec<(TransferValue, usize, usize)>) -> (res: Vec<TransferValue>)
    requires
        forall|v: int| 0 <= v < vrs@.len() ==> (#[trigger] vrs@[v]).0.wf(),
    ensures
        forall|i: int| 0 <= i < res@.len() ==> (#[trigger] res@[i]).wf(),
        forall|i: int, j: int| 0 <= i < j < res@.len() ==> less_value(#[trigger] res@[j], #[trigger] res@[i]),
        forall|i: int| 0 <= i < res@.len() ==> value_of_some(vrs@, #[trigger] res@[i]),
        forall|v: int| 0 <= v < vrs@.len() ==> listed(res@, (#[trigger] vrs@[v]).0),
{
    let mut res: Vec<TransferValue> = Vec::new();
    for v in 0..vrs.len()
        invariant
            forall|v: int| 0 <= v < vrs@.len() ==> (#[trigger] vrs@[v]).0.wf(),
            forall|i: int| 0 <= i < res@.len() ==> (#[trigger] res@[i]).wf(),
            forall|i: int, j: int| 0 <= i < j < res@.len() ==> !same_value(#[trigger] res@[i], #[trigger] res@[j]),
            forall|i: int| 0 <= i < res@.len() ==> value_of_some(vrs@, #[trigger] res@[i]),
            forall|w: int| 0 <= w < v ==> listed(res@, (#[trigger] vrs@[w]).0),
    {
        let t = vrs[v].0;
        let mut found = false;
        for i in 0..res.len()
            invariant
                found == exists|k: int| 0 <= k < i && same_value(#[trigger] res@[k], t),
        {
            if res[i].same_as(&t) {
                found = true;
            }
        }
        if !found {
            let ghost before = res@;
            assert(same_value(t, vrs@[v as int].0));
            res.push(t);
            assert forall|i: int| 0 <= i < res@.len() implies value_of_some(vrs@, #[trigger] res@[i]) by {
                if i < before.len() {
                    assert(res@[i] == before[i]);
                } else {
                    assert(same_value(vrs@[v as int].0, res@[i]));
                }
            }
            assert forall|w: int| 0 <= w < v + 1 implies listed(res@, (#[trigger] vrs@[w]).0) by {
                if w < v {
                    let i = choose|i: int| 0 <= i < before.len() && same_value(#[trigger] before[i], vrs@[w].0);
                    assert(res@[i] == before[i]);
                } else {
                    assert(same_value(res@[before.len() as int], vrs@[w].0));
                }
            }
        }
    }
    let len = res.len();
    if len == 0 {
        return res;
    }
    let mut i: usize = 1;
    while i < len
        invariant
            1 <= i <= len,
            res@.len() == len,
            forall|a: int| 0 <= a < len ==> (#[trigger] res@[a]).wf(),
            forall|a: int, b: int| 0 <= a < b < len ==> !same_value(#[trigger] res@[a], #[trigger] res@[b]),
            forall|a: int| 0 <= a < len ==> value_of_some(vrs@, #[trigger] res@[a]),
            forall|w: int| 0 <= w < vrs@.len() ==> listed(res@, (#[trigger] vrs@[w]).0),
            forall|a: int, b: int| 0 <= a < b < i ==> !less_value(#[trigger] res@[a], #[trigger] res@[b]),
        decreases len - i,
    {
        let mut j: usize = i;
        while j > 0 && res[j - 1].less_than(&res[j])
            invariant
                0 <= j <= i < len,
                res@.len() == len,
                forall|a: int| 0 <= a < len ==> (#[trigger] res@[a]).wf(),
                forall|a: int, b: int| 0 <= a < b < len ==> !same_value(#[trigger] res@[a], #[trigger] res@[b]),
                forall|a: int| 0 <= a < len ==> value_of_some(vrs@, #[trigger] res@[a]),
                forall|w: int| 0 <= w < vrs@.len() ==> listed(res@, (#[trigger] vrs@[w]).0),
                forall|a: int, b: int| 0 <= a < b <= i && a != j && b != j ==> !less_value(#[trigger] res@[a], #[trigger] res@[b]),
                forall|b: int| j < b <= i ==> less_value(#[trigger] res@[b], res@[j as int]),
            decreases j,
        {
            let ghost before = res@;
            let x = res[j - 1];
            let y = res[j];
            res.set(j - 1, y);
            res.set(j, x);
            assert(res@ =~= before.update(j - 1, before[j as int]).update(j as int, before[j - 1]));
            assert forall|a: int, b: int| 0 <= a < b < len implies !same_value(#[trigger] res@[a], #[trigger] res@[b]) by {
                let pa = if a == j - 1 { j as int } else if a == j { j - 1 } else { a };
                let pb = if b == j - 1 { j as int } else if b == j { j - 1 } else { b };
                assert(res@[a] == before[pa]);
                assert(res@[b] == before[pb]);
                if pa < pb {
                    assert(!same_value(before[pa], before[pb]));
                } else {
                    assert(!same_value(before[pb], before[pa]));
                }
            }
            assert forall|w: int| 0 <= w < vrs@.len() implies listed(res@, (#[trigger] vrs@[w]).0) by {
                let k = choose|k: int| 0 <= k < before.len() && same_value(#[trigger] before[k], vrs@[w].0);
                let nk = if k == j - 1 { j as int } else if k == j { j - 1 } else { k };
                assert(res@[nk] == before[k]);
            }
            j = j - 1;
        }
        proof {
            assert forall|a: int, b: int| 0 <= a < b < i + 1 implies !less_value(#[trigger] res@[a], #[trigger] res@[b]) by {
                if b == j {
                    if j > 0 && a < j - 1 {
                        lemma_tv_not_less_transitive(res@[a], res@[j - 1], res@[j as int]);
                    }
                }
            }
        }
        i = i + 1;
    }
    assert forall|a: int, b: int| 0 <= a < b < res@.len() implies less_value(#[trigger] res@[b], #[trigger] res@[a]) by {
        assert(!less_value(res@[a], res@[b]));
        assert(!same_value(res@[a], res@[b]));
    }
    res
}


/// The positions in the ranges cut down to (a, b) are those of the prefix of ranges, then those of the next.
proof fn lemma_clipped_step(rs: Seq<(usize, usize)>, a: usize, b: usize, ri: int)
    requires
        0 <= ri < rs.len(),
    ensures
        positions_in(clipped(rs.take(ri + 1), a, b)) == positions_in(clipped(rs.take(ri), a, b)) + span(
            larger(rs[ri].0, a) as int,
            smaller(rs[ri].1, b) as int,
        ),
{
    assert(clipped(rs.take(ri + 1), a, b).drop_last() =~= clipped(rs.take(ri), a, b));
}

/// The value positions of some value ranges are those of the ranges before the last, then those of the last.
proof fn lemma_value_positions_step(vrs: Seq<ValueRange>, rs: Seq<(usize, usize)>, t: TransferValue, v: int)
    requires
        0 <= v < vrs.len(),
    ensures
        value_positions(vrs.take(v + 1), rs, t) == value_positions(vrs.take(v), rs, t) + if same_value(vrs[v].0, t) {
            positions_in(clipped(rs, vrs[v].1, vrs[v].2))
        } else {
            Seq::<int>::empty()
        },
{
    assert(vrs.take(v + 1).drop_last() =~= vrs.take(v));
}

impl ElectionData {
    /// Append the ATL votes at the positions in the ranges cut down to (a, b).
    fn push_atl_votes<'a>(
        &'a self,
        resolved_atl: &'a Vec<Vec<CandidateIndex>>,
        ranges: &Vec<Range<usize>>,
        a: usize,
        b: usize,
        votes: &mut Vec<PartiallyDistributedVote<'a>>,
    )
        requires
            resolved_atl@.len() == self.atl@.len(),
            ranges_within(clipped(range_pairs(ranges@), a, b), self.atl@.len()),
        ensures
            ({
                let ps = positions_in(clipped(range_pairs(ranges@), a, b));
                &&& final(votes)@.len() == old(votes)@.len() + ps.len()
                &&& final(votes)@.take(old(votes)@.len() as int) == old(votes)@
                &&& forall|k: int| 0 <= k < ps.len() ==> atl_vote(self.atl@, ps[k], resolved_atl@[ps[k]]@, #[trigger] final(votes)@[old(votes)@.len() + k])
            }),
    {
        let ghost rs = range_pairs(ranges@);
        let ghost base = old(votes)@;
        let ghost n0 = base.len();
        assert(votes@.take(n0 as int) =~= base);
        for ri in 0..ranges.len()
            invariant
                rs == range_pairs(ranges@),
                ranges_within(clipped(rs, a, b), self.atl@.len()),
                resolved_atl@.len() == self.atl@.len(),
                votes@.len() == n0 + positions_in(clipped(rs.take(ri as int), a, b)).len(),
                votes@.take(n0 as int) == base,
                forall|k: int| 0 <= k < positions_in(clipped(rs.take(ri as int), a, b)).len() ==> atl_vote(
                    self.atl@,
                    positions_in(clipped(rs.take(ri as int), a, b))[k],
                    resolved_atl@[positions_in(clipped(rs.take(ri as int), a, b))[k]]@,
                    #[trigger] votes@[n0 + k],
                ),
        {
            let start = if ranges[ri].start >= a { ranges[ri].start } else { a };
            let end = if ranges[ri].end <= b { ranges[ri].end } else { b };
            assert(clipped(rs, a, b)[ri as int] == (start, end));
            let ghost done = positions_in(clipped(rs.take(ri as int), a, b));
            proof {
                lemma_clipped_step(rs, a, b, ri as int);
            }
            for i in start..end
                invariant
                    start <= end <= self.atl@.len(),
                    resolved_atl@.len() == self.atl@.len(),
                    votes@.len() == n0 + done.len() + (i - start),
                    votes@.take(n0 as int) == base,
                    forall|k: int| 0 <= k < done.len() + (i - start) ==> atl_vote(
                        self.atl@,
                        (done + span(start as int, i as int))[k],
                        resolved_atl@[(done + span(start as int, i as int))[k]]@,
                        #[trigger] votes@[n0 + k],
                    ),
            {
                let v = PartiallyDistributedVote::new(self.atl[i].n, resolved_atl[i].as_slice(), VoteSource::Atl(&self.atl[i]));
                let ghost before = votes@;
                votes.push(v);
                assert(votes@.take(n0 as int) =~= before.take(n0 as int));
                assert forall|k: int| 0 <= k < done.len() + (i + 1 - start) implies atl_vote(
                    self.atl@,
                    (done + span(start as int, i + 1))[k],
                    resolved_atl@[(done + span(start as int, i + 1))[k]]@,
                    #[trigger] votes@[n0 + k],
                ) by {
                    if k < done.len() + (i - start) {
                        assert((done + span(start as int, i + 1))[k] == (done + span(start as int, i as int))[k]);
                        assert(votes@[n0 + k] == before[n0 + k]);
                    } else {
                        assert((done + span(start as int, i + 1))[k] == i);
                    }
                }
            }
            assert(done + span(start as int, end as int) == positions_in(clipped(rs.take(ri + 1), a, b)));
        }
        assert(rs.take(rs.len() as int) =~= rs);
    }

    /// Append the BTL votes at the positions in the ranges cut down to (a, b).
    fn push_btl_votes<'a>(&'a self, ranges: &Vec<Range<usize>>, a: usize, b: usize, votes: &mut Vec<PartiallyDistributedVote<'a>>)
        requires
            ranges_within(clipped(range_pairs(ranges@), a, b), self.btl@.len()),
        ensures
            ({
                let ps = positions_in(clipped(range_pairs(ranges@), a, b));
                &&& final(votes)@.len() == old(votes)@.len() + ps.len()
                &&& final(votes)@.take(old(votes)@.len() as int) == old(votes)@
                &&& forall|k: int| 0 <= k < ps.len() ==> btl_vote(self.btl@, ps[k], #[trigger] final(votes)@[old(votes)@.len() + k])
            }),
    {
        let ghost rs = range_pairs(ranges@);
        let ghost base = old(votes)@;
        let ghost n0 = base.len();
        assert(votes@.take(n0 as int) =~= base);
        for ri in 0..ranges.len()
            invariant
                rs == range_pairs(ranges@),
                ranges_within(clipped(rs, a, b), self.btl@.len()),
                votes@.len() == n0 + positions_in(clipped(rs.take(ri as int), a, b)).len(),
                votes@.take(n0 as int) == base,
                forall|k: int| 0 <= k < positions_in(clipped(rs.take(ri as int), a, b)).len() ==> btl_vote(
                    self.btl@,
                    positions_in(clipped(rs.take(ri as int), a, b))[k],
                    #[trigger] votes@[n0 + k],
                ),
        {
            let start = if ranges[ri].start >= a { ranges[ri].start } else { a };
            let end = if ranges[ri].end <= b { ranges[ri].end } else { b };
            assert(clipped(rs, a, b)[ri as int] == (start, end));
            let ghost done = positions_in(clipped(rs.take(ri as int), a, b));
            proof {
                lemma_clipped_step(rs, a, b, ri as int);
            }
            for i in start..end
                invariant
                    start <= end <= self.btl@.len(),
                    votes@.len() == n0 + done.len() + (i - start),
                    votes@.take(n0 as int) == base,
                    forall|k: int| 0 <= k < done.len() + (i - start) ==> btl_vote(
                        self.btl@,
                        (done + span(start as int, i as int))[k],
                        #[trigger] votes@[n0 + k],
                    ),
            {
                let v = PartiallyDistributedVote::new(self.btl[i].n, self.btl[i].candidates.as_slice(), VoteSource::Btl(&self.btl[i]));
                let ghost before = votes@;
                votes.push(v);
                assert(votes@.take(n0 as int) =~= before.take(n0 as int));
                assert forall|k: int| 0 <= k < done.len() + (i + 1 - start) implies btl_vote(
                    self.btl@,
                    (done + span(start as int, i + 1))[k],
                    #[trigger] votes@[n0 + k],
                ) by {
                    if k < done.len() + (i - start) {
                        assert((done + span(start as int, i + 1))[k] == (done + span(start as int, i as int))[k]);
                        assert(votes@[n0 + k] == before[n0 + k]);
                    } else {
                        assert((done + span(start as int, i + 1))[k] == i);
                    }
                }
            }
            assert(done + span(start as int, end as int) == positions_in(clipped(rs.take(ri + 1), a, b)));
        }
        assert(rs.take(rs.len() as int) =~= rs);
    }
}


/// The values of some specifications and the positions they apply to, or value one for all `n`
/// positions if there are none.
fn value_ranges_of(specs: &Vec<VoteValueSpecification>, n: usize) -> (res: Vec<(TransferValue, usize, usize)>)
    ensures
        res@ == value_ranges(specs@, n),
{
    let mut res: Vec<(TransferValue, usize, usize)> = Vec::new();
    if specs.len() == 0 {
        res.push((TransferValue::one(), 0, n));
        assert(res@ =~= value_ranges(specs@, n));
        return res;
    }
    for i in 0..specs.len()
        invariant
            res@ == specs@.take(i as int).map_values(|s: VoteValueSpecification| (s.value, s.first_index_inclusive, s.last_index_exclusive)),
    {
        let s = &specs[i];
        res.push((s.value, s.first_index_inclusive, s.last_index_exclusive));
        assert(specs@.take(i + 1) =~= specs@.take(i as int).push(specs@[i as int]));
        assert(res@ =~= specs@.take(i + 1).map_values(|s: VoteValueSpecification| (s.value, s.first_index_inclusive, s.last_index_exclusive)));
    }
    assert(specs@.take(specs@.len() as int) =~= specs@);
    res
}

impl ElectionData {
    /// The votes of value `t`: the ATL votes of the value ranges of that value, in order, then the BTL votes.
    fn value_group<'a>(
        &'a self,
        resolved_atl: &'a Vec<Vec<CandidateIndex>>,
        aranges: &Vec<Range<usize>>,
        branges: &Vec<Range<usize>>,
        avrs: &Vec<(TransferValue, usize, usize)>,
        bvrs: &Vec<(TransferValue, usize, usize)>,
        t: &TransferValue,
    ) -> (res: Vec<PartiallyDistributedVote<'a>>)
        requires
            resolved_atl@.len() == self.atl@.len(),
            clipped_within(avrs@, range_pairs(aranges@), self.atl@.len()),
            clipped_within(bvrs@, range_pairs(branges@), self.btl@.len()),
        ensures
            group_is(
                self.atl@,
                self.btl@,
                resolved_atl@,
                value_positions(avrs@, range_pairs(aranges@), *t),
                value_positions(bvrs@, range_pairs(branges@), *t),
                res@,
            ),
    {
        let ghost ra = range_pairs(aranges@);
        let ghost rb = range_pairs(branges@);
        let mut votes: Vec<PartiallyDistributedVote<'a>> = Vec::new();
        assert(avrs@.take(0) =~= Seq::<ValueRange>::empty());
        for v in 0..avrs.len()
            invariant
                resolved_atl@.len() == self.atl@.len(),
                ra == range_pairs(aranges@),
                clipped_within(avrs@, ra, self.atl@.len()),
                votes@.len() == value_positions(avrs@.take(v as int), ra, *t).len(),
                forall|k: int| 0 <= k < votes@.len() ==> atl_vote(
                    self.atl@,
                    value_positions(avrs@.take(v as int), ra, *t)[k],
                    resolved_atl@[value_positions(avrs@.take(v as int), ra, *t)[k]]@,
                    #[trigger] votes@[k],
                ),
        {
            proof {
                lemma_value_positions_step(avrs@, ra, *t, v as int);
            }
            let ghost before = votes@;
            let ghost done = value_positions(avrs@.take(v as int), ra, *t);
            if avrs[v].0.same_as(t) {
                assert(ranges_within(clipped(ra, avrs@[v as int].1, avrs@[v as int].2), self.atl@.len()));
                self.push_atl_votes(resolved_atl, aranges, avrs[v].1, avrs[v].2, &mut votes);
                assert forall|k: int| 0 <= k < votes@.len() implies atl_vote(
                    self.atl@,
                    value_positions(avrs@.take(v + 1), ra, *t)[k],
                    resolved_atl@[value_positions(avrs@.take(v + 1), ra, *t)[k]]@,
                    #[trigger] votes@[k],
                ) by {
                    if k < before.len() {
                        assert(votes@[k] == votes@.take(before.len() as int)[k]);
                    } else {
                        assert(votes@[before.len() + (k - before.len())] == votes@[k]);
                    }
                }
            }
        }
        assert(avrs@.take(avrs@.len() as int) =~= avrs@);
        let na = votes.len();
        let ghost atl_part = votes@;
        let ghost pa = value_positions(avrs@, ra, *t);
        assert(bvrs@.take(0) =~= Seq::<ValueRange>::empty());
        for v in 0..bvrs.len()
            invariant
                rb == range_pairs(branges@),
                clipped_within(bvrs@, rb, self.btl@.len()),
                votes@.len() == na + value_positions(bvrs@.take(v as int), rb, *t).len(),
                votes@.take(na as int) == atl_part,
                forall|k: int| na <= k < votes@.len() ==> btl_vote(
                    self.btl@,
                    value_positions(bvrs@.take(v as int), rb, *t)[k - na],
                    #[trigger] votes@[k],
                ),
        {
            proof {
                lemma_value_positions_step(bvrs@, rb, *t, v as int);
            }
            let ghost before = votes@;
            if bvrs[v].0.same_as(t) {
                assert(ranges_within(clipped(rb, bvrs@[v as int].1, bvrs@[v as int].2), self.btl@.len()));
                self.push_btl_votes(branges, bvrs[v].1, bvrs[v].2, &mut votes);
                assert(votes@.take(na as int) =~= before.take(na as int)) by {
                    assert forall|k: int| 0 <= k < na implies votes@[k] == before[k] by {
                        assert(votes@[k] == votes@.take(before.len() as int)[k]);
                    }
                }
                assert forall|k: int| na <= k < votes@.len() implies btl_vote(
                    self.btl@,
                    value_positions(bvrs@.take(v + 1), rb, *t)[k - na],
                    #[trigger] votes@[k],
                ) by {
                    if k < before.len() {
                        assert(votes@[k] == votes@.take(before.len() as int)[k]);
                    } else {
                        assert(votes@[before.len() + (k - before.len())] == votes@[k]);
                    }
                }
            }
        }
        assert(bvrs@.take(bvrs@.len() as int) =~= bvrs@);
        assert forall|k: int| 0 <= k < pa.len() implies atl_vote(self.atl@, pa[k], resolved_atl@[pa[k]]@, #[trigger] votes@[k]) by {
            assert(votes@[k] == atl_part[k]);
        }
        votes
    }
}


/// The value ranges of an election's ATL votes followed by those of its BTL votes.
pub open spec fn all_value_ranges(data: ElectionData) -> Seq<ValueRange> {
    value_ranges(data.atl_transfer_values@, data.atl.len()) + value_ranges(data.btl_transfer_values@, data.btl.len())
}

impl ElectionData {
    /// Every wanted vote, not yet distributed, grouped by the transfer value it carries (one
    /// where the data gives none), the groups in decreasing order of transfer value, each value
    /// once. In each group come first the ATL votes (with the preferences in `resolved_atl`, one
    /// list for each ATL vote, as `resolve_atl_preferences` gives them) of each range of that
    /// value in turn, then the BTL votes likewise, each within the ranges of the wanted types
    /// (all votes if `vote_types` is None).
    pub fn resolve_atl_including_weights<'a>(
        &'a self,
        resolved_atl: &'a Vec<Vec<CandidateIndex>>,
        vote_types: Option<&[String]>,
    ) -> (res: Vec<(TransferValue, Vec<PartiallyDistributedVote<'a>>)>)
        requires
            resolved_atl@.len() == self.atl@.len(),
            forall|v: int| 0 <= v < self.atl_transfer_values@.len() ==> (#[trigger] self.atl_transfer_values@[v]).value.wf(),
            forall|v: int| 0 <= v < self.btl_transfer_values@.len() ==> (#[trigger] self.btl_transfer_values@[v]).value.wf(),
            clipped_within(
                value_ranges(self.atl_transfer_values@, self.atl.len()),
                restricted(vote_types, self.atl_types@, self.atl.len()),
                self.atl@.len(),
            ),
            clipped_within(
                value_ranges(self.btl_transfer_values@, self.btl.len()),
                restricted(vote_types, self.btl_types@, self.btl.len()),
                self.btl@.len(),
            ),
            self.atl_transfer_values@.len() == 0 && self.btl_transfer_values@.len() == 0 ==> {
                &&& ranges_within(restricted(vote_types, self.atl_types@, self.atl.len()), self.atl@.len())
                &&& ranges_within(restricted(vote_types, self.btl_types@, self.btl.len()), self.btl@.len())
            },
        ensures
            forall|i: int, j: int| 0 <= i < j < res@.len() ==> less_value(#[trigger] res@[j].0, #[trigger] res@[i].0),
            forall|i: int| 0 <= i < res@.len() ==> value_of_some(all_value_ranges(*self), (#[trigger] res@[i]).0),
            forall|v: int| 0 <= v < all_value_ranges(*self).len() ==> listed(
                res@.map_values(|g: (TransferValue, Vec<PartiallyDistributedVote<'a>>)| g.0),
                (#[trigger] all_value_ranges(*self)[v]).0,
            ),
            forall|i: int| 0 <= i < res@.len() ==> group_is(
                self.atl@,
                self.btl@,
                resolved_atl@,
                value_positions(
                    value_ranges(self.atl_transfer_values@, self.atl.len()),
                    restricted(vote_types, self.atl_types@, self.atl.len()),
                    (#[trigger] res@[i]).0,
                ),
                value_positions(
                    value_ranges(self.btl_transfer_values@, self.btl.len()),
                    restricted(vote_types, self.btl_types@, self.btl.len()),
                    res@[i].0,
                ),
                res@[i].1@,
            ),
    {
        let avrs = value_ranges_of(&self.atl_transfer_values, self.atl.len());
        let bvrs = value_ranges_of(&self.btl_transfer_values, self.btl.len());
        let aranges = VoteTypeSpecification::restrict(vote_types, self.atl_types.as_slice(), self.atl.len());
        let branges = VoteTypeSpecification::restrict(vote_types, self.btl_types.as_slice(), self.btl.len());
        let ghost ra = range_pairs(aranges@);
        let ghost rb = range_pairs(branges@);
        let ghost all = all_value_ranges(*self);
        if self.btl_transfer_values.len() == 0 && self.atl_transfer_values.len() == 0 {
            let votes = self.resolve_atl(resolved_atl, vote_types);
            let one = TransferValue::one();
            proof {
                assert(clipped(ra, 0, self.atl.len()) =~= ra);
                assert(clipped(rb, 0, self.btl.len()) =~= rb);
                let ones = seq![(one, 0usize, self.atl.len())];
                assert(avrs@ == ones);
                assert(ones.drop_last() =~= Seq::<ValueRange>::empty());
                assert(same_value(one, one));
                assert(ones.last() == (one, 0usize, self.atl.len()));
                assert(value_positions(ones.drop_last(), ra, one) == Seq::<int>::empty());
                assert(Seq::<int>::empty() + positions_in(clipped(ra, 0, self.atl.len())) =~= positions_in(ra));
                assert(value_positions(avrs@, ra, one) == positions_in(ra));
                let bones = seq![(one, 0usize, self.btl.len())];
                assert(bvrs@ == bones);
                assert(bones.drop_last() =~= Seq::<ValueRange>::empty());
                assert(bones.last() == (one, 0usize, self.btl.len()));
                assert(value_positions(bones.drop_last(), rb, one) == Seq::<int>::empty());
                assert(Seq::<int>::empty() + positions_in(clipped(rb, 0, self.btl.len())) =~= positions_in(rb));
                assert(value_positions(bvrs@, rb, one) == positions_in(rb));
            }
            let mut res: Vec<(TransferValue, Vec<PartiallyDistributedVote<'a>>)> = Vec::new();
            res.push((one, votes));
            proof {
                assert(all[0].0 == one);
                assert(all[1].0 == one);
                assert(all.len() == 2);
                assert(value_of_some(all, res@[0].0)) by {
                    assert(same_value(all[0].0, res@[0].0));
                }
                let values = res@.map_values(|g: (TransferValue, Vec<PartiallyDistributedVote<'a>>)| g.0);
                assert(values[0] == one);
                assert forall|v: int| 0 <= v < all.len() implies listed(values, (#[trigger] all[v]).0) by {
                    assert(same_value(values[0], all[v].0));
                }
            }
            return res;
        }
        let mut all_ranges: Vec<(TransferValue, usize, usize)> = Vec::new();
        for i in 0..avrs.len()
            invariant
                all_ranges@ == avrs@.take(i as int),
        {
            all_ranges.push(avrs[i]);
            assert(avrs@.take(i + 1) =~= avrs@.take(i as int).push(avrs@[i as int]));
        }
        for i in 0..bvrs.len()
            invariant
                all_ranges@ == avrs@ + bvrs@.take(i as int),
        {
            all_ranges.push(bvrs[i]);
            assert(bvrs@.take(i + 1) =~= bvrs@.take(i as int).push(bvrs@[i as int]));
        }
        assert(bvrs@.take(bvrs@.len() as int) =~= bvrs@);
        assert(avrs@.take(avrs@.len() as int) =~= avrs@);
        assert(all_ranges@ == all);
        assert forall|v: int| 0 <= v < all_ranges@.len() implies (#[trigger] all_ranges@[v]).0.wf() by {
            crate::transfer_value::lemma_one_coprime();
            if v < avrs@.len() {
                assert(all_ranges@[v] == avrs@[v]);
            } else {
                assert(all_ranges@[v] == bvrs@[v - avrs@.len()]);
            }
        }
        let values = distinct_values_descending(&all_ranges);
        let mut res: Vec<(TransferValue, Vec<PartiallyDistributedVote<'a>>)> = Vec::new();
        for i in 0..values.len()
            invariant
                resolved_atl@.len() == self.atl@.len(),
                ra == range_pairs(aranges@),
                rb == range_pairs(branges@),
                avrs@ == value_ranges(self.atl_transfer_values@, self.atl.len()),
                bvrs@ == value_ranges(self.btl_transfer_values@, self.btl.len()),
                ra == restricted(vote_types, self.atl_types@, self.atl.len()),
                rb == restricted(vote_types, self.btl_types@, self.btl.len()),
                clipped_within(avrs@, ra, self.atl@.len()),
                clipped_within(bvrs@, rb, self.btl@.len()),
                res@.len() == i,
                forall|k: int| 0 <= k < i ==> (#[trigger] res@[k]).0 == values@[k],
                forall|k: int| 0 <= k < i ==> group_is(
                    self.atl@,
                    self.btl@,
                    resolved_atl@,
                    value_positions(avrs@, ra, (#[trigger] res@[k]).0),
                    value_positions(bvrs@, rb, res@[k].0),
                    res@[k].1@,
                ),
        {
            let t = values[i];
            let group = self.value_group(resolved_atl, &aranges, &branges, &avrs, &bvrs, &t);
            res.push((t, group));
        }
        proof {
            let vs = res@.map_values(|g: (TransferValue, Vec<PartiallyDistributedVote<'a>>)| g.0);
            assert(vs =~= values@);
        }
        res
    }
}

} // verus!
