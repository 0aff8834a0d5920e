//! A compact list of votes, grouped by the transfer value they carry, with its text form.
//!
//! A vote is written `n*p1,p2,p3`: `n` voters (possibly negative, for a change in votes) gave
//! their preferences to the candidates with indices `p1`, `p2`, `p3` in that order. A list of
//! votes is written `v1;v2;TV:tv1;v3;v4`: a `TV:` item means that all votes after it carry that
//! transfer value. A transfer value of one is assumed at the start.

use vstd::prelude::*;
use crate::ballot_metadata::CandidateIndex;
use crate::text::{
    first_at, free_of, is_digit, lemma_decimal_text, lemma_signed_text_chars, lemma_signed_text_round_trip,
    lemma_split_join, lemma_unsigned_text_round_trip, chars_of, decimal_text, isize_text, join, join_strings, number_text, parse_isize, parse_signed_spec,
    parse_unsigned, parse_unsigned_spec, push_char, signed_text, split_on, split_once_spec, split_once_text,
    split_text, starts_with, text_between, texts_of, append_str,
};
use crate::transfer_value::{reduced_ratio, same_value, tv_text, TransferValue};

verus! {

/// Votes, grouped by transfer value.
#[derive(Clone, Debug)]
pub struct ListOfVotes {
    pub tvs: Vec<VotesWithGivenTransferValue>,
}

/// Votes that all carry the same transfer value.
#[derive(Clone, Debug)]
pub struct VotesWithGivenTransferValue {
    pub tv: TransferValue,
    pub votes: Vec<Vote>,
}

/// Some number of identical votes.
#[derive(Clone, Debug)]
pub struct Vote {
    /// The number of voters who voted this way. May be negative as deltas may be negative.
    pub n: isize,
    /// candidates[0] is the first preferenced candidate.
    pub candidates: Vec<CandidateIndex>,
}

/// Why text could not be read as votes.
#[derive(Clone, Debug)]
pub enum ParseVoteError {
    NoTimes,
    NotInteger,
    NotTransferValue,
    MultipleTransferValues,
}

/// A vote as plain values: the number of voters and their preferences.
pub type VoteView = (isize, Seq<CandidateIndex>);

/// Votes with a transfer value as plain values.
pub type GroupView = (TransferValue, Seq<VoteView>);

impl View for Vote {
    type V = VoteView;

    open spec fn view(&self) -> VoteView {
        (self.n, self.candidates@)
    }
}

/// Some votes as plain values.
pub open spec fn votes_view(vs: Seq<Vote>) -> Seq<VoteView> {
    vs.map_values(|v: Vote| v@)
}

/// Some groups of votes as plain values.
pub open spec fn groups_view(gs: Seq<VotesWithGivenTransferValue>) -> Seq<GroupView> {
    gs.map_values(|g: VotesWithGivenTransferValue| g@)
}

impl View for VotesWithGivenTransferValue {
    type V = GroupView;

    open spec fn view(&self) -> GroupView {
        (self.tv, votes_view(self.votes@))
    }
}

impl View for ListOfVotes {
    type V = Seq<GroupView>;

    open spec fn view(&self) -> Seq<GroupView> {
        groups_view(self.tvs@)
    }
}

/// The transfer value one.
pub open spec fn one_tv() -> TransferValue {
    TransferValue { numerator: 1, denominator: 1 }
}

/// The text of a candidate index.
pub open spec fn index_text(c: CandidateIndex) -> Seq<char> {
    decimal_text(c.0 as nat)
}

/// The texts of some candidate indices.
pub open spec fn index_texts(cs: Seq<CandidateIndex>) -> Seq<Seq<char>> {
    cs.map_values(|c: CandidateIndex| index_text(c))
}

/// The text of a vote: `n*p1,p2,p3`.
pub open spec fn vote_text(v: VoteView) -> Seq<char> {
    signed_text(v.0 as int) + seq!['*'] + join(index_texts(v.1), seq![','])
}

/// The texts of some votes.
pub open spec fn votes_texts(vs: Seq<VoteView>) -> Seq<Seq<char>> {
    vs.map_values(|v: VoteView| vote_text(v))
}

/// The text that starts a new transfer value.
pub open spec fn tv_marker() -> Seq<char> {
    seq!['T', 'V', ':']
}

/// The items of the text of a list of votes, given the transfer value in force before them
/// (`None` at the start, when a transfer value of one is assumed). Groups without votes are
/// left out, and a transfer value is only written when it differs from the one in force.
pub open spec fn list_items(gs: Seq<GroupView>, last: Option<TransferValue>) -> Seq<Seq<char>>
    decreases gs.len(),
{
    if gs.len() == 0 {
        Seq::empty()
    } else {
        let g = gs[0];
        if g.1.len() == 0 {
            list_items(gs.drop_first(), last)
        } else {
            let same = match last {
                Some(l) => same_value(l, g.0),
                None => g.0.numerator == g.0.denominator,
            };
            let head: Seq<Seq<char>> = if same {
                Seq::empty()
            } else {
                seq![tv_marker() + tv_text(g.0)]
            };
            head + votes_texts(g.1) + list_items(gs.drop_first(), if same { last } else { Some(g.0) })
        }
    }
}

/// The text of a list of votes: its items separated by ';'.
pub open spec fn list_text(gs: Seq<GroupView>) -> Seq<char> {
    join(list_items(gs, None), seq![';'])
}

/// The candidate indices written in some texts, if each is one.
pub open spec fn parse_indices(parts: Seq<Seq<char>>) -> Option<Seq<CandidateIndex>>
    decreases parts.len(),
{
    if parts.len() == 0 {
        Some(Seq::empty())
    } else {
        match (parse_indices(parts.drop_last()), parse_unsigned_spec(parts.last(), usize::MAX as nat)) {
            (Some(c), Some(v)) => Some(c.push(CandidateIndex(v as usize))),
            _ => None,
        }
    }
}

/// What reading a vote from a text gives.
pub open spec fn parse_vote_spec(s: Seq<char>) -> Result<VoteView, ParseVoteError> {
    match split_once_spec(s, '*') {
        None => Err(ParseVoteError::NoTimes),
        Some((a, b)) => match parse_signed_spec(a, isize::MIN as int, isize::MAX as nat) {
            None => Err(ParseVoteError::NotInteger),
            Some(n) => match parse_indices(split_on(b, ',')) {
                None => Err(ParseVoteError::NotInteger),
                Some(c) => Ok((n as isize, c)),
            },
        },
    }
}

/// The groups after reading one more item of a list of votes.
pub open spec fn parse_item(groups: Seq<GroupView>, item: Seq<char>) -> Result<Seq<GroupView>, ParseVoteError> {
    if starts_with(item, tv_marker()) {
        match reduced_ratio(item.skip(3)) {
            None => Err(ParseVoteError::NotTransferValue),
            Some((p, q)) => Ok(groups.push((TransferValue { numerator: p, denominator: q }, Seq::empty()))),
        }
    } else {
        match parse_vote_spec(item) {
            Err(e) => Err(e),
            Ok(v) => {
                let gs = if groups.len() == 0 {
                    seq![(one_tv(), Seq::<VoteView>::empty())]
                } else {
                    groups
                };
                Ok(gs.update(gs.len() - 1, (gs.last().0, gs.last().1.push(v))))
            },
        }
    }
}

/// What reading some items of a list of votes, in order, gives: the first error, if any.
pub open spec fn parse_items(items: Seq<Seq<char>>) -> Result<Seq<GroupView>, ParseVoteError>
    decreases items.len(),
{
    if items.len() == 0 {
        Ok(Seq::empty())
    } else {
        match parse_items(items.drop_last()) {
            Err(e) => Err(e),
            Ok(groups) => parse_item(groups, items.last()),
        }
    }
}

/// What reading a list of votes from a text gives.
pub open spec fn parse_list_spec(s: Seq<char>) -> Result<Seq<GroupView>, ParseVoteError> {
    parse_items(split_on(s, ';'))
}

/// Once reading a prefix of the items fails, reading all of them fails the same way.
proof fn lemma_parse_items_error(items: Seq<Seq<char>>, k: int, e: ParseVoteError)
    requires
        0 <= k <= items.len(),
        parse_items(items.take(k)) == Err::<Seq<GroupView>, ParseVoteError>(e),
    ensures
        parse_items(items) == Err::<Seq<GroupView>, ParseVoteError>(e),
    decreases items.len() - k,
{
    if k < items.len() {
        assert(items.take(k + 1).drop_last() =~= items.take(k));
        lemma_parse_items_error(items, k + 1, e);
    } else {
        assert(items.take(k) =~= items);
    }
}

impl Vote {
    /// The text of the vote: `n*p1,p2,p3`.
    #[verifier::loop_isolation(false)]
    pub fn to_text(&self) -> (res: String)
        ensures
            res@ == vote_text(self@),
    {
        let mut res = isize_text(self.n);
        push_char(&mut res, '*');
        let mut parts: Vec<String> = Vec::new();
        for i in 0..self.candidates.len()
            invariant
                texts_of(parts@) == index_texts(self.candidates@.take(i as int)),
        {
            let t = number_text(self.candidates[i].0 as u64);
            assert(t@ == index_text(self.candidates@[i as int]));
            parts.push(t);
            assert(texts_of(parts@).len() == i + 1);
            assert(forall|j: int| 0 <= j < i ==> texts_of(parts@)[j] == index_texts(self.candidates@.take(i as int))[j]);
            assert(texts_of(parts@) =~= index_texts(self.candidates@.take(i + 1)));
        }
        assert(self.candidates@.take(self.candidates@.len() as int) =~= self.candidates@);
        let joined = join_strings(&parts, ",");
        proof {
            reveal_strlit(",");
        }
        assert(",".view() == seq![',']);
        append_str(&mut res, joined.as_str());
        assert(res@ =~= vote_text(self@));
        res
    }

    /// Reads a vote written `n*p1,p2,p3`.
    #[verifier::loop_isolation(false)]
    pub fn from_text(s: &str) -> (res: Result<Vote, ParseVoteError>)
        ensures
            match parse_vote_spec(s@) {
                Ok(v) => res matches Ok(r) && r@ == v,
                Err(e) => res matches Err(f) && f == e,
            },
    {
        let (n_text, prefs_text) = match split_once_text(s, '*') {
            Some(p) => p,
            None => {
                return Err(ParseVoteError::NoTimes);
            },
        };
        let n = match parse_isize(n_text.as_str()) {
            Some(n) => n,
            None => {
                return Err(ParseVoteError::NotInteger);
            },
        };
        let parts = split_text(prefs_text.as_str(), ',');
        let ghost pieces = split_on(prefs_text@, ',');
        let mut candidates: Vec<CandidateIndex> = Vec::new();
        for i in 0..parts.len()
            invariant
                texts_of(parts@) == pieces,
                parse_indices(pieces.take(i as int)) == Some(candidates@),
        {
            assert(pieces.take(i + 1).drop_last() =~= pieces.take(i as int));
            assert(pieces.take(i + 1).last() == parts@[i as int]@);
            match parse_unsigned(parts[i].as_str(), usize::MAX as u64) {
                Some(v) => {
                    candidates.push(CandidateIndex(v as usize));
                },
                None => {
                    proof {
                        assert(parse_unsigned_spec(pieces.take(i + 1).last(), usize::MAX as nat) is None);
                        assert(parse_indices(pieces.take(i + 1)) is None);
                        lemma_parse_indices_none(pieces, i + 1);
                    }
                    return Err(ParseVoteError::NotInteger);
                },
            }
        }
        assert(pieces.take(pieces.len() as int) =~= pieces);
        Ok(Vote { n, candidates })
    }
}

/// The text `TV:` followed by the text of a transfer value.
fn tv_item(tv: &TransferValue) -> (res: String)
    requires
        tv.wf(),
    ensures
        res@ == tv_marker() + tv_text(*tv),
{
    let mut res = String::new();
    push_char(&mut res, 'T');
    push_char(&mut res, 'V');
    push_char(&mut res, ':');
    let t = tv.to_text();
    append_str(&mut res, t.as_str());
    assert(res@ =~= tv_marker() + tv_text(*tv));
    res
}

/// Appends the texts of some votes to a list of texts.
fn push_vote_texts(items: &mut Vec<String>, votes: &Vec<Vote>)
    ensures
        texts_of(final(items)@) == texts_of(old(items)@) + votes_texts(votes_view(votes@)),
{
    let ghost start = texts_of(items@);
    for j in 0..votes.len()
        invariant
            texts_of(items@) == start + votes_texts(votes_view(votes@.take(j as int))),
    {
        let t = votes[j].to_text();
        let ghost prior = items@;
        items.push(t);
        assert(texts_of(items@) =~= texts_of(prior).push(t@));
        assert(votes_texts(votes_view(votes@.take(j + 1))) =~= votes_texts(votes_view(votes@.take(j as int))).push(
            t@,
        ));
        assert(texts_of(items@) =~= start + votes_texts(votes_view(votes@.take(j + 1))));
    }
    assert(votes@.take(votes@.len() as int) =~= votes@);
}

/// Every transfer value in the groups has a non-zero denominator.
pub open spec fn groups_wf(gs: Seq<GroupView>) -> bool {
    forall|i: int| 0 <= i < gs.len() ==> (#[trigger] gs[i]).0.wf()
}

impl ListOfVotes {
    /// The text of the list: `v1;v2;TV:tv1;v3`. Groups without votes are left out, and a
    /// transfer value is only written when it differs from the one in force.
    pub fn to_text(&self) -> (res: String)
        requires
            groups_wf(self@),
        ensures
            res@ == list_text(self@),
    {
        let ghost gs = self@;
        let mut items: Vec<String> = Vec::new();
        let mut last: Option<TransferValue> = None;
        assert(gs.skip(0) =~= gs);
        for i in 0..self.tvs.len()
            invariant
                gs == self@,
                groups_wf(gs),
                list_items(gs, None) == texts_of(items@) + list_items(gs.skip(i as int), last),
        {
            let g = &self.tvs[i];
            assert(gs.skip(i as int).drop_first() =~= gs.skip(i + 1));
            assert(gs.skip(i as int)[0] == g@);
            assert(gs[i as int] == g@);
            if g.votes.len() > 0 {
                let same = match last {
                    Some(l) => l.same_as(&g.tv),
                    None => g.tv.is_one(),
                };
                let ghost before = texts_of(items@);
                if !same {
                    let t = tv_item(&g.tv);
                    items.push(t);
                    assert(texts_of(items@) =~= before + seq![tv_marker() + tv_text(g.tv)]);
                    last = Some(g.tv);
                } else {
                    assert(before + Seq::<Seq<char>>::empty() =~= before);
                }
                push_vote_texts(&mut items, &g.votes);
            } else {
                assert(votes_view(g.votes@).len() == 0);
            }
        }
        assert(list_items(gs.skip(self.tvs.len() as int), last) == Seq::<Seq<char>>::empty());
        assert(texts_of(items@) + Seq::<Seq<char>>::empty() =~= texts_of(items@));
        let res = join_strings(&items, ";");
        assert(";".view() == seq![';']) by {
            reveal_strlit(";");
        }
        res
    }
}

/// Reads one item of a list of votes into the groups read so far.
fn read_item(tvs: &mut Vec<VotesWithGivenTransferValue>, item: &str) -> (res: Result<(), ParseVoteError>)
    ensures
        match parse_item(groups_view(old(tvs)@), item@) {
            Ok(gs) => res is Ok && groups_view(final(tvs)@) == gs,
            Err(e) => res matches Err(f) && f == e,
        },
{
    let ghost before = groups_view(tvs@);
    let chars = chars_of(item);
    if chars.len() >= 3 && chars[0] == 'T' && chars[1] == 'V' && chars[2] == ':' {
        assert(item@.take(3) =~= tv_marker());
        let rest = text_between(&chars, 3, chars.len());
        assert(rest@ =~= item@.skip(3));
        match TransferValue::from_text(rest.as_str()) {
            Some(tv) => {
                tvs.push(VotesWithGivenTransferValue { tv, votes: Vec::new() });
                assert(votes_view(Seq::<Vote>::empty()) =~= Seq::<VoteView>::empty());
                assert(groups_view(tvs@) =~= before.push((tv, Seq::<VoteView>::empty())));
                Ok(())
            },
            None => Err(ParseVoteError::NotTransferValue),
        }
    } else {
        assert(!starts_with(item@, tv_marker())) by {
            if starts_with(item@, tv_marker()) {
                assert(item@.take(3)[0] == 'T' && item@.take(3)[1] == 'V' && item@.take(3)[2] == ':');
            }
        }
        match Vote::from_text(item) {
            Ok(v) => {
                if tvs.len() == 0 {
                    tvs.push(VotesWithGivenTransferValue { tv: TransferValue::one(), votes: Vec::new() });
                    assert(votes_view(Seq::<Vote>::empty()) =~= Seq::<VoteView>::empty());
                    assert(groups_view(tvs@) =~= seq![(one_tv(), Seq::<VoteView>::empty())]);
                }
                let ghost mid = groups_view(tvs@);
                let ghost mid_tvs = tvs@;
                let mut g = tvs.pop().unwrap();
                assert(mid_tvs.last() == g);
                let ghost old_votes = g.votes@;
                let ghost vv = v@;
                g.votes.push(v);
                assert(votes_view(g.votes@) =~= votes_view(old_votes).push(vv));
                tvs.push(g);
                assert(tvs@ =~= mid_tvs.update(mid_tvs.len() - 1, g));
                assert(groups_view(tvs@) =~= mid.update(mid.len() - 1, (mid.last().0, mid.last().1.push(vv))));
                Ok(())
            },
            Err(e) => Err(e),
        }
    }
}

impl ListOfVotes {
    /// Reads a list of votes written `v1;v2;TV:tv1;v3`, stopping at the first item that cannot be
    /// read.
    pub fn from_text(s: &str) -> (res: Result<ListOfVotes, ParseVoteError>)
        ensures
            match parse_list_spec(s@) {
                Ok(gs) => res matches Ok(l) && l@ == gs,
                Err(e) => res matches Err(f) && f == e,
            },
    {
        let items = split_text(s, ';');
        let ghost pieces = split_on(s@, ';');
        let mut tvs: Vec<VotesWithGivenTransferValue> = Vec::new();
        assert(pieces.take(0) =~= Seq::<Seq<char>>::empty());
        assert(groups_view(tvs@) =~= Seq::<GroupView>::empty());
        for i in 0..items.len()
            invariant
                texts_of(items@) == pieces,
                pieces == split_on(s@, ';'),
                parse_items(pieces.take(i as int)) == Ok::<Seq<GroupView>, ParseVoteError>(groups_view(tvs@)),
        {
            assert(pieces.take(i + 1).drop_last() =~= pieces.take(i as int));
            assert(pieces.take(i + 1).last() == items@[i as int]@);
            match read_item(&mut tvs, items[i].as_str()) {
                Ok(()) => {},
                Err(e) => {
                    proof {
                        lemma_parse_items_error(pieces, i + 1, e);
                    }
                    return Err(e);
                },
            }
        }
        assert(pieces.take(pieces.len() as int) =~= pieces);
        Ok(ListOfVotes { tvs })
    }
}

impl VotesWithGivenTransferValue {
    /// The text of the votes: `tv*v1,v2`, where each vote is written `n*p1,p2`.
    pub fn to_text(&self) -> (res: String)
        requires
            self.tv.wf(),
        ensures
            res@ == tv_text(self.tv) + seq!['*'] + join(votes_texts(self@.1), seq![',']),
    {
        let mut res = self.tv.to_text();
        push_char(&mut res, '*');
        let mut items: Vec<String> = Vec::new();
        push_vote_texts(&mut items, &self.votes);
        assert(texts_of(Seq::<String>::empty()) =~= Seq::<Seq<char>>::empty());
        assert(Seq::<Seq<char>>::empty() + votes_texts(self@.1) =~= votes_texts(self@.1));
        let joined = join_strings(&items, ",");
        assert(",".view() == seq![',']) by {
            reveal_strlit(",");
        }
        append_str(&mut res, joined.as_str());
        assert(res@ =~= tv_text(self.tv) + seq!['*'] + join(votes_texts(self@.1), seq![',']));
        res
    }

    /// Reads votes that all carry one transfer value, written as a list of votes; more than one
    /// transfer value is an error.
    pub fn from_text(s: &str) -> (res: Result<VotesWithGivenTransferValue, ParseVoteError>)
        ensures
            match parse_list_spec(s@) {
                Err(e) => res matches Err(f) && f == e,
                Ok(gs) => if gs.len() == 0 {
                    res matches Ok(g) && g@ == (one_tv(), Seq::<VoteView>::empty())
                } else if gs.len() == 1 {
                    res matches Ok(g) && g@ == gs[0]
                } else {
                    res matches Err(f) && f is MultipleTransferValues
                },
            },
    {
        let mut list = match ListOfVotes::from_text(s) {
            Ok(l) => l,
            Err(e) => {
                return Err(e);
            },
        };
        if list.tvs.len() == 0 {
            let res = VotesWithGivenTransferValue { tv: TransferValue::one(), votes: Vec::new() };
            assert(votes_view(res.votes@) =~= Seq::<VoteView>::empty());
            Ok(res)
        } else if list.tvs.len() == 1 {
            let g = list.tvs.pop().unwrap();
            Ok(g)
        } else {
            Err(ParseVoteError::MultipleTransferValues)
        }
    }
}

/// Once reading a prefix of the indices fails, reading all of them fails.
proof fn lemma_parse_indices_none(parts: Seq<Seq<char>>, k: int)
    requires
        0 <= k <= parts.len(),
        parse_indices(parts.take(k)) is None,
    ensures
        parse_indices(parts) is None,
    decreases parts.len() - k,
{
    if k < parts.len() {
        assert(parts.take(k + 1).drop_last() =~= parts.take(k));
        lemma_parse_indices_none(parts, k + 1);
    } else {
        assert(parts.take(k) =~= parts);
    }
}

} // verus!

verus! {

/// The candidate indices read back from their texts are the indices.
proof fn lemma_parse_index_texts(cs: Seq<CandidateIndex>)
    ensures
        parse_indices(index_texts(cs)) == Some(cs),
    decreases cs.len(),
{
    if cs.len() > 0 {
        lemma_parse_index_texts(cs.drop_last());
        assert(index_texts(cs).drop_last() =~= index_texts(cs.drop_last()));
        lemma_unsigned_text_round_trip(cs.last().0 as nat, usize::MAX as nat);
        assert(cs.drop_last().push(CandidateIndex(cs.last().0)) =~= cs);
    } else {
        assert(index_texts(cs) =~= Seq::<Seq<char>>::empty());
    }
}

/// Reading the text of a vote that gives at least one preference gives the vote back.
pub proof fn lemma_vote_text_round_trip(v: VoteView)
    requires
        v.1.len() > 0,
    ensures
        parse_vote_spec(vote_text(v)) == Ok::<VoteView, ParseVoteError>(v),
{
    let a = signed_text(v.0 as int);
    let parts = index_texts(v.1);
    let b = join(parts, seq![',']);
    let s = vote_text(v);
    let i = a.len() as int;
    lemma_signed_text_chars(v.0 as int);
    assert(s =~= a + seq!['*'] + b);
    assert forall|j: int| 0 <= j < i implies s[j] != '*' by {
        assert(s[j] == a[j]);
    }
    assert(first_at(s, '*', i));
    assert forall|k: int| first_at(s, '*', k) implies k == i by {
        if k < i {
            assert(s[k] == a[k]);
        }
    }
    assert(s.take(i) =~= a);
    assert(s.skip(i + 1) =~= b);
    assert(split_once_spec(s, '*') == Some((a, b)));
    lemma_signed_text_round_trip(v.0 as int, isize::MIN as int, isize::MAX as nat);
    assert forall|k: int, j: int| 0 <= k < parts.len() && 0 <= j < parts[k].len() implies #[trigger] parts[k][j]
        != ',' by {
        lemma_decimal_text(v.1[k].0 as nat);
        assert(is_digit(decimal_text(v.1[k].0 as nat)[j]));
    }
    assert(free_of(parts, ','));
    lemma_split_join(parts, ',');
    lemma_parse_index_texts(v.1);
}

} // verus!
