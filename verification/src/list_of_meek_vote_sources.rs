//! Where the votes a candidate has under Meek's method came from: how many papers took each
//! route of keep values, and what each is worth.

use vstd::prelude::*;
use crate::ballot_metadata::CandidateIndex;
use crate::ballot_pile::BallotPaperCount;
use crate::text::{
    decimal_text, number_text, append_str, push_char, join, texts_of, join_strings, split_on, split_once_spec,
    split_once_text, split_text, parse_unsigned, parse_unsigned_spec,
};

verus! {

/// Papers that went the same way.
#[derive(Clone, Debug)]
pub struct MeekVotesWithSameKeepValueRoute {
    pub count: BallotPaperCount,
    /// The Meek weight of each paper. Product of the keep values of elements of the route.
    pub weight: String,
    /// an ordered list of the keep values the vote went through.
    pub route: Vec<CandidateIndex>,
}

/// All the routes papers took.
#[derive(Clone, Debug)]
pub struct ListOfMeekVoteSources {
    pub sources: Vec<MeekVotesWithSameKeepValueRoute>,
}

/// Why a text could not be read as a route.
#[derive(Clone, Debug, Copy, PartialEq, Eq, Structural)]
pub enum ParseMeekVoteSourceError {
    NoTimes,
    NoAt,
    NotInteger,
    NotTransferValue,
    MultipleTransferValues,
}

/// What a route says, as plain values: weight, number of papers, route.
pub open spec fn meek_view(m: MeekVotesWithSameKeepValueRoute) -> (Seq<char>, usize, Seq<CandidateIndex>) {
    (m.weight@, m.count.0, m.route@)
}

/// A route written as candidate numbers separated by '&'.
pub open spec fn route_text(route: Seq<CandidateIndex>) -> Seq<char> {
    join(route.map_values(|c: CandidateIndex| decimal_text(c.0 as nat)), seq!['&'])
}

/// A route written as weight*count@route.
pub open spec fn source_text(m: (Seq<char>, usize, Seq<CandidateIndex>)) -> Seq<char> {
    m.0 + seq!['*'] + decimal_text(m.1 as nat) + seq!['@'] + route_text(m.2)
}

/// Read candidate numbers, each as `str::parse` reads a usize.
pub open spec fn parse_candidates(pieces: Seq<Seq<char>>) -> Option<Seq<CandidateIndex>>
    decreases pieces.len(),
{
    if pieces.len() == 0 {
        Some(Seq::empty())
    } else {
        match (parse_unsigned_spec(pieces[0], usize::MAX as nat), parse_candidates(pieces.skip(1))) {
            (Some(c), Some(rest)) => Some(seq![CandidateIndex(c as usize)] + rest),
            _ => None,
        }
    }
}

/// Read a route: empty, or candidate numbers separated by '&'.
pub open spec fn parse_route(s: Seq<char>) -> Option<Seq<CandidateIndex>> {
    if s.len() == 0 {
        Some(Seq::empty())
    } else {
        parse_candidates(split_on(s, '&'))
    }
}

/// Read weight*count@route.
pub open spec fn parse_source(s: Seq<char>) -> Result<(Seq<char>, usize, Seq<CandidateIndex>), ParseMeekVoteSourceError> {
    match split_once_spec(s, '*') {
        None => Err(ParseMeekVoteSourceError::NoTimes),
        Some((weight, after_star)) => match split_once_spec(after_star, '@') {
            None => Err(ParseMeekVoteSourceError::NoAt),
            Some((count, after_at)) => match parse_unsigned_spec(count, usize::MAX as nat) {
                None => Err(ParseMeekVoteSourceError::NotInteger),
                Some(n) => match parse_route(after_at) {
                    None => Err(ParseMeekVoteSourceError::NotInteger),
                    Some(route) => Ok((weight, n as usize, route)),
                },
            },
        },
    }
}

/// Read routes, stopping at the first that cannot be read.
pub open spec fn parse_sources(pieces: Seq<Seq<char>>) -> Result<Seq<(Seq<char>, usize, Seq<CandidateIndex>)>, ParseMeekVoteSourceError>
    decreases pieces.len(),
{
    if pieces.len() == 0 {
        Ok(Seq::empty())
    } else {
        match parse_source(pieces[0]) {
            Err(e) => Err(e),
            Ok(m) => match parse_sources(pieces.skip(1)) {
                Err(e) => Err(e),
                Ok(rest) => Ok(seq![m] + rest),
            },
        }
    }
}

/// Read routes separated by ';' (none if the text is empty).
pub open spec fn parse_list(s: Seq<char>) -> Result<Seq<(Seq<char>, usize, Seq<CandidateIndex>)>, ParseMeekVoteSourceError> {
    if s.len() == 0 {
        Ok(Seq::empty())
    } else {
        parse_sources(split_on(s, ';'))
    }
}

/// Read candidate numbers.
fn parse_candidates_exec(pieces: &Vec<String>) -> (res: Option<Vec<CandidateIndex>>)
    ensures
        match parse_candidates(texts_of(pieces@)) {
            Some(r) => res matches Some(v) && v@ == r,
            None => res is None,
        },
{
    let ghost ps = texts_of(pieces@);
    let mut res: Vec<CandidateIndex> = Vec::new();
    proof {
        assert(ps.skip(0) =~= ps);
        if let Some(r) = parse_candidates(ps) {
            assert(res@ + r =~= r);
        }
    }
    for i in 0..pieces.len()
        invariant
            ps == texts_of(pieces@),
            parse_candidates(ps) == match parse_candidates(ps.skip(i as int)) {
                Some(rest) => Some(res@ + rest),
                None => None::<Seq<CandidateIndex>>,
            },
    {
        assert(ps.skip(i as int)[0] == ps[i as int]);
        assert(ps.skip(i as int).skip(1) =~= ps.skip(i + 1));
        match parse_unsigned(pieces[i].as_str(), usize::MAX as u64) {
            None => {
                return None;
            },
            Some(c) => {
                let ghost before = res@;
                res.push(CandidateIndex(c as usize));
                proof {
                    match parse_candidates(ps.skip(i + 1)) {
                        Some(rest) => {
                            assert(res@ + rest =~= before + (seq![CandidateIndex(c as usize)] + rest));
                        },
                        None => {},
                    }
                }
            },
        }
    }
    assert(ps.skip(ps.len() as int) =~= Seq::<Seq<char>>::empty());
    assert(res@ + Seq::<CandidateIndex>::empty() =~= res@);
    Some(res)
}

impl MeekVotesWithSameKeepValueRoute {
    /// Written as weight*count@route, the route's candidates separated by '&'.
    pub fn to_text(&self) -> (res: String)
        ensures
            res@ == source_text(meek_view(*self)),
    {
        let mut res = self.weight.clone();
        push_char(&mut res, '*');
        let count = number_text(self.count.0 as u64);
        append_str(&mut res, count.as_str());
        push_char(&mut res, '@');
        let mut numbers: Vec<String> = Vec::new();
        for i in 0..self.route.len()
            invariant
                numbers@.len() == i,
                forall|j: int| 0 <= j < i ==> (#[trigger] numbers@[j])@ == decimal_text(self.route@[j].0 as nat),
        {
            numbers.push(number_text(self.route[i].0 as u64));
        }
        let route = join_strings(&numbers, "&");
        proof {
            reveal_strlit("&");
            assert(texts_of(numbers@) =~= self.route@.map_values(|c: CandidateIndex| decimal_text(c.0 as nat)));
            assert("&"@ =~= seq!['&']);
        }
        append_str(&mut res, route.as_str());
        res
    }

    /// Read weight*count@route.
    pub fn from_text(s: &str) -> (res: Result<Self, ParseMeekVoteSourceError>)
        ensures
            match parse_source(s@) {
                Ok(m) => res matches Ok(r) && meek_view(r) == m,
                Err(e) => res == Err::<Self, ParseMeekVoteSourceError>(e),
            },
    {
        let (weight, after_star) = match split_once_text(s, '*') {
            None => return Err(ParseMeekVoteSourceError::NoTimes),
            Some(p) => p,
        };
        let (count, after_at) = match split_once_text(after_star.as_str(), '@') {
            None => return Err(ParseMeekVoteSourceError::NoAt),
            Some(p) => p,
        };
        let n = match parse_unsigned(count.as_str(), usize::MAX as u64) {
            None => return Err(ParseMeekVoteSourceError::NotInteger),
            Some(n) => n as usize,
        };
        let route = if after_at.as_str().is_empty() {
            Vec::new()
        } else {
            let pieces = split_text(after_at.as_str(), '&');
            match parse_candidates_exec(&pieces) {
                None => return Err(ParseMeekVoteSourceError::NotInteger),
                Some(r) => r,
            }
        };
        Ok(MeekVotesWithSameKeepValueRoute { count: BallotPaperCount(n), weight, route })
    }
}

impl ListOfMeekVoteSources {
    /// The routes, separated by ';'.
    pub fn to_text(&self) -> (res: String)
        ensures
            res@ == join(self.sources@.map_values(|m: MeekVotesWithSameKeepValueRoute| source_text(meek_view(m))), seq![';']),
    {
        let mut parts: Vec<String> = Vec::new();
        for i in 0..self.sources.len()
            invariant
                parts@.len() == i,
                forall|j: int| 0 <= j < i ==> (#[trigger] parts@[j])@ == source_text(meek_view(self.sources@[j])),
        {
            parts.push(self.sources[i].to_text());
        }
        let res = join_strings(&parts, ";");
        proof {
            reveal_strlit(";");
            assert(";"@ =~= seq![';']);
            assert(texts_of(parts@) =~= self.sources@.map_values(|m: MeekVotesWithSameKeepValueRoute| source_text(meek_view(m))));
        }
        res
    }

    /// Read routes separated by ';' (none if the text is empty).
    pub fn from_text(s: &str) -> (res: Result<Self, ParseMeekVoteSourceError>)
        ensures
            match parse_list(s@) {
                Ok(ms) => res matches Ok(r) && r.sources@.map_values(|m: MeekVotesWithSameKeepValueRoute| meek_view(m)) == ms,
                Err(e) => res == Err::<Self, ParseMeekVoteSourceError>(e),
            },
    {
        if s.is_empty() {
            let r = ListOfMeekVoteSources { sources: Vec::new() };
            assert(r.sources@.map_values(|m: MeekVotesWithSameKeepValueRoute| meek_view(m)) =~= Seq::empty());
            return Ok(r);
        }
        let pieces = split_text(s, ';');
        let ghost ps = texts_of(pieces@);
        let mut sources: Vec<MeekVotesWithSameKeepValueRoute> = Vec::new();
        proof {
            assert(ps.skip(0) =~= ps);
            assert(sources@.map_values(|m: MeekVotesWithSameKeepValueRoute| meek_view(m)) =~= Seq::empty());
            if let Ok(r) = parse_sources(ps) {
                assert(sources@.map_values(|m: MeekVotesWithSameKeepValueRoute| meek_view(m)) + r =~= r);
            }
        }
        for i in 0..pieces.len()
            invariant
                ps == texts_of(pieces@),
                ps == split_on(s@, ';'),
                s@.len() > 0,
                parse_list(s@) == match parse_sources(ps.skip(i as int)) {
                    Ok(rest) => Ok(sources@.map_values(|m: MeekVotesWithSameKeepValueRoute| meek_view(m)) + rest),
                    Err(e) => Err(e),
                },
        {
            assert(ps.skip(i as int)[0] == ps[i as int]);
            assert(ps.skip(i as int).skip(1) =~= ps.skip(i + 1));
            match MeekVotesWithSameKeepValueRoute::from_text(pieces[i].as_str()) {
                Err(e) => {
                    return Err(e);
                },
                Ok(m) => {
                    let ghost before = sources@.map_values(|m: MeekVotesWithSameKeepValueRoute| meek_view(m));
                    sources.push(m);
                    proof {
                        assert(sources@.map_values(|m: MeekVotesWithSameKeepValueRoute| meek_view(m)) =~= before.push(
                            meek_view(m),
                        ));
                        match parse_sources(ps.skip(i + 1)) {
                            Ok(rest) => {
                                assert(before.push(meek_view(m)) + rest =~= before + (seq![meek_view(m)] + rest));
                            },
                            Err(_) => {},
                        }
                    }
                },
            }
        }
        assert(ps.skip(ps.len() as int) =~= Seq::<Seq<char>>::empty());
        let r = ListOfMeekVoteSources { sources };
        assert(r.sources@.map_values(|m: MeekVotesWithSameKeepValueRoute| meek_view(m)) + Seq::empty() =~= r.sources@.map_values(
            |m: MeekVotesWithSameKeepValueRoute| meek_view(m),
        ));
        Ok(r)
    }
}

/// Collects routes, adding up papers that took the same route.
#[derive(Clone, Debug)]
pub struct ListOfMeekVoteSourcesBuilder {
    pub sources: Vec<MeekVotesWithSameKeepValueRoute>,
}

/// No route occurs twice.
pub open spec fn routes_distinct(s: Seq<MeekVotesWithSameKeepValueRoute>) -> bool {
    forall|i: int, j: int| 0 <= i < j < s.len() ==> (#[trigger] s[i]).route@ != (#[trigger] s[j]).route@
}

/// The routes collected and the number of papers that took each, in order.
pub open spec fn routes_view(s: Seq<MeekVotesWithSameKeepValueRoute>) -> Seq<(Seq<CandidateIndex>, nat)> {
    s.map_values(|m: MeekVotesWithSameKeepValueRoute| (m.route@, m.count.0 as nat))
}

/// The last place in the list where the route is, if any.
pub open spec fn find_route(s: Seq<(Seq<CandidateIndex>, nat)>, r: Seq<CandidateIndex>) -> Option<int>
    decreases s.len(),
{
    if s.len() == 0 {
        None
    } else if s.last().0 == r {
        Some(s.len() - 1)
    } else {
        find_route(s.drop_last(), r)
    }
}

/// The routes after adding `count` papers that took route `r`: added to the papers of that
/// route if it is there, else a new route at the end.
pub open spec fn add_route(s: Seq<(Seq<CandidateIndex>, nat)>, count: nat, r: Seq<CandidateIndex>) -> Seq<(Seq<CandidateIndex>, nat)> {
    match find_route(s, r) {
        Some(i) => s.update(i, (r, s[i].1 + count)),
        None => s.push((r, count)),
    }
}

/// The routes after adding, in order, papers that took the given routes, starting with none.
pub open spec fn routes_after(adds: Seq<(nat, Seq<CandidateIndex>)>) -> Seq<(Seq<CandidateIndex>, nat)>
    decreases adds.len(),
{
    if adds.len() == 0 {
        Seq::empty()
    } else {
        add_route(routes_after(adds.drop_last()), adds.last().0, adds.last().1)
    }
}

/// The number of papers added that took route `r`.
pub open spec fn papers_on_route(adds: Seq<(nat, Seq<CandidateIndex>)>, r: Seq<CandidateIndex>) -> nat
    decreases adds.len(),
{
    if adds.len() == 0 {
        0
    } else {
        papers_on_route(adds.drop_last(), r) + if adds.last().1 == r {
            adds.last().0
        } else {
            0
        }
    }
}

/// No route occurs twice in a list of routes and counts.
pub open spec fn distinct_routes(s: Seq<(Seq<CandidateIndex>, nat)>) -> bool {
    forall|i: int, j: int| 0 <= i < j < s.len() ==> (#[trigger] s[i]).0 != (#[trigger] s[j]).0
}

/// The route is in the list of routes added.
pub open spec fn route_added(adds: Seq<(nat, Seq<CandidateIndex>)>, r: Seq<CandidateIndex>) -> bool {
    exists|j: int| 0 <= j < adds.len() && (#[trigger] adds[j]).1 == r
}

/// Where `find_route` finds a route, it is there; where it finds none, it is nowhere.
proof fn lemma_find_route(s: Seq<(Seq<CandidateIndex>, nat)>, r: Seq<CandidateIndex>)
    ensures
        match find_route(s, r) {
            Some(i) => 0 <= i < s.len() && s[i].0 == r,
            None => forall|i: int| 0 <= i < s.len() ==> (#[trigger] s[i]).0 != r,
        },
    decreases s.len(),
{
    if s.len() > 0 && s.last().0 != r {
        lemma_find_route(s.drop_last(), r);
        if find_route(s.drop_last(), r) is None {
            assert forall|i: int| 0 <= i < s.len() implies (#[trigger] s[i]).0 != r by {
                if i < s.len() - 1 {
                    assert(s[i] == s.drop_last()[i]);
                }
            }
        }
    }
}

/// No papers were added with a route that was never added.
proof fn lemma_papers_absent(adds: Seq<(nat, Seq<CandidateIndex>)>, r: Seq<CandidateIndex>)
    requires
        !route_added(adds, r),
    ensures
        papers_on_route(adds, r) == 0,
    decreases adds.len(),
{
    if adds.len() > 0 {
        let p = adds.drop_last();
        assert(adds[adds.len() - 1].1 != r);
        assert(!route_added(p, r)) by {
            if route_added(p, r) {
                let j = choose|j: int| 0 <= j < p.len() && (#[trigger] p[j]).1 == r;
                assert(adds[j] == p[j]);
            }
        }
        lemma_papers_absent(p, r);
    }
}

/// After a sequence of additions to a fresh builder, there is exactly one entry for each route
/// added, none for any other, and each holds all the papers added with its route.
pub proof fn lemma_routes_after(adds: Seq<(nat, Seq<CandidateIndex>)>)
    ensures
        distinct_routes(routes_after(adds)),
        forall|i: int|
            0 <= i < routes_after(adds).len() ==> route_added(adds, (#[trigger] routes_after(adds)[i]).0)
                && routes_after(adds)[i].1 == papers_on_route(adds, routes_after(adds)[i].0),
        forall|j: int| 0 <= j < adds.len() ==> (#[trigger] find_route(routes_after(adds), adds[j].1)) is Some,
    decreases adds.len(),
{
    if adds.len() > 0 {
        let p = adds.drop_last();
        let (c, r) = adds.last();
        lemma_routes_after(p);
        let before = routes_after(p);
        let after = routes_after(adds);
        lemma_find_route(before, r);
        assert forall|x: Seq<CandidateIndex>| route_added(p, x) implies route_added(adds, x) by {
            let j = choose|j: int| 0 <= j < p.len() && (#[trigger] p[j]).1 == x;
            assert(adds[j] == p[j]);
        }
        assert(route_added(adds, r)) by {
            assert(adds[adds.len() - 1].1 == r);
        }
        assert forall|i: int| 0 <= i < after.len() implies route_added(adds, (#[trigger] after[i]).0)
            && after[i].1 == papers_on_route(adds, after[i].0) by {
            match find_route(before, r) {
                Some(k) => {
                    assert(route_added(p, before[i].0));
                    if i != k {
                        assert(before[i].0 != before[k].0);
                        assert(after[i] == before[i]);
                    }
                },
                None => {
                    if i < before.len() {
                        assert(route_added(p, before[i].0));
                        assert(after[i] == before[i]);
                    } else {
                        if route_added(p, r) {
                            let j = choose|j: int| 0 <= j < p.len() && (#[trigger] p[j]).1 == r;
                            assert(find_route(before, p[j].1) is Some);
                        }
                        lemma_papers_absent(p, r);
                    }
                },
            }
        }
        assert(distinct_routes(after)) by {
            assert forall|a: int, b: int| 0 <= a < b < after.len() implies (#[trigger] after[a]).0 != (#[trigger] after[b]).0 by {
                if b < before.len() {
                    assert(before[a].0 != before[b].0);
                }
            }
        }
        assert forall|j: int| 0 <= j < adds.len() implies (#[trigger] find_route(after, adds[j].1)) is Some by {
            lemma_find_route(after, adds[j].1);
            if j < p.len() {
                assert(adds[j] == p[j]);
                assert(find_route(before, p[j].1) is Some);
                lemma_find_route(before, p[j].1);
                let k = find_route(before, p[j].1)->0;
                assert(after[k].0 == p[j].1);
            } else {
                match find_route(before, r) {
                    Some(k) => assert(after[k].0 == r),
                    None => assert(after[before.len() as int].0 == r),
                }
            }
        }
    }
}

/// The routes collected and the weight of each, in order.
pub open spec fn weights_view(s: Seq<MeekVotesWithSameKeepValueRoute>) -> Seq<(Seq<CandidateIndex>, Seq<char>)> {
    s.map_values(|m: MeekVotesWithSameKeepValueRoute| (m.route@, m.weight@))
}

/// The route is in the list of routes and weights.
pub open spec fn route_in(s: Seq<(Seq<CandidateIndex>, Seq<char>)>, r: Seq<CandidateIndex>) -> bool {
    exists|i: int| 0 <= i < s.len() && (#[trigger] s[i]).0 == r
}

/// The routes and weights after adding, in order, routes each with the weight its papers would
/// have: a route already there keeps the weight it had.
pub open spec fn weights_after(adds: Seq<(Seq<CandidateIndex>, Seq<char>)>) -> Seq<(Seq<CandidateIndex>, Seq<char>)>
    decreases adds.len(),
{
    if adds.len() == 0 {
        Seq::empty()
    } else {
        let before = weights_after(adds.drop_last());
        if route_in(before, adds.last().0) {
            before
        } else {
            before.push(adds.last())
        }
    }
}

/// Some addition has route `r`.
pub open spec fn added_with(adds: Seq<(Seq<CandidateIndex>, Seq<char>)>, r: Seq<CandidateIndex>) -> bool {
    exists|k: int| 0 <= k < adds.len() && (#[trigger] adds[k]).0 == r
}

/// The weight given with the first addition of route `r`.
pub open spec fn first_weight(adds: Seq<(Seq<CandidateIndex>, Seq<char>)>, r: Seq<CandidateIndex>) -> Seq<char>
    decreases adds.len(),
{
    if adds.len() == 0 {
        Seq::empty()
    } else if added_with(adds.drop_last(), r) {
        first_weight(adds.drop_last(), r)
    } else {
        adds.last().1
    }
}

/// After a sequence of additions to a fresh builder, there is an entry exactly for the routes
/// added, and the weight of each entry is the one given with the first addition of its route.
pub proof fn lemma_weights_after(adds: Seq<(Seq<CandidateIndex>, Seq<char>)>)
    ensures
        forall|r: Seq<CandidateIndex>| #[trigger] route_in(weights_after(adds), r) <==> added_with(adds, r),
        forall|i: int|
            0 <= i < weights_after(adds).len() ==> (#[trigger] weights_after(adds)[i]).1 == first_weight(adds, weights_after(adds)[i].0),
    decreases adds.len(),
{
    if adds.len() > 0 {
        let p = adds.drop_last();
        let x = adds.last();
        lemma_weights_after(p);
        let before = weights_after(p);
        assert forall|r: Seq<CandidateIndex>| #[trigger] route_in(weights_after(adds), r) <==> added_with(adds, r) by {
            if added_with(p, r) {
                let k = choose|k: int| 0 <= k < p.len() && (#[trigger] p[k]).0 == r;
                assert(adds[k] == p[k]);
            }
            if added_with(adds, r) {
                let k = choose|k: int| 0 <= k < adds.len() && (#[trigger] adds[k]).0 == r;
                if k < p.len() {
                    assert(adds[k] == p[k]);
                    assert(added_with(p, r));
                } else {
                    assert(r == x.0);
                }
            }
            if route_in(weights_after(adds), r) && !route_in(before, r) {
                let i = choose|i: int| 0 <= i < weights_after(adds).len() && (#[trigger] weights_after(adds)[i]).0 == r;
                assert(weights_after(adds)[i] == x);
                assert(adds[adds.len() - 1].0 == r);
            }
            if route_in(before, r) {
                let i = choose|i: int| 0 <= i < before.len() && (#[trigger] before[i]).0 == r;
                assert(weights_after(adds)[i] == before[i]);
            }
            if r == x.0 && !route_in(before, r) {
                assert(weights_after(adds)[before.len() as int] == x);
            }
        }
        assert forall|i: int| 0 <= i < weights_after(adds).len() implies (#[trigger] weights_after(adds)[i]).1 == first_weight(
            adds,
            weights_after(adds)[i].0,
        ) by {
            assert(adds.drop_last() == p);
            if i < before.len() {
                assert(weights_after(adds)[i] == before[i]);
                assert(route_in(before, before[i].0));
            } else {
                assert(weights_after(adds)[i] == x);
            }
        }
    }
}

/// True iff the two routes are the same.
fn same_route(a: &Vec<CandidateIndex>, b: &Vec<CandidateIndex>) -> (res: bool)
    ensures
        res == (a@ == b@),
{
    if a.len() != b.len() {
        return false;
    }
    for i in 0..a.len()
        invariant
            a@.len() == b@.len(),
            forall|j: int| 0 <= j < i ==> a@[j] == b@[j],
    {
        if a[i] != b[i] {
            return false;
        }
    }
    assert(a@ =~= b@);
    true
}

impl ListOfMeekVoteSourcesBuilder {
    /// No routes yet.
    pub fn default() -> (res: Self)
        ensures
            res.sources@.len() == 0,
            routes_view(res.sources@) == routes_after(Seq::empty()),
            weights_view(res.sources@) == weights_after(Seq::empty()),
    {
        ListOfMeekVoteSourcesBuilder { sources: Vec::new() }
    }

    /// Add papers that took a route. The weight is only worked out if the route is new.
    #[verifier::loop_isolation(false)]
    #[verifier::rlimit(40)]
    pub fn add<F: FnOnce() -> String>(&mut self, count: BallotPaperCount, source: &Vec<CandidateIndex>, weight: F)
        requires
            routes_distinct(old(self).sources@),
            call_requires(weight, ()),
            forall|i: int|
                0 <= i < old(self).sources@.len() && (#[trigger] old(self).sources@[i]).route@ == source@ ==> old(self).sources@[i].count.0
                    + count.0 <= usize::MAX,
        ensures
            routes_distinct(final(self).sources@),
            (exists|i: int| 0 <= i < old(self).sources@.len() && (#[trigger] old(self).sources@[i]).route@ == source@) ==> exists|
                i: int,
            |
                0 <= i < old(self).sources@.len() && (#[trigger] old(self).sources@[i]).route@ == source@ && final(self).sources@.len()
                    == old(self).sources@.len() && (forall|j: int|
                    0 <= j < old(self).sources@.len() && j != i ==> #[trigger] final(self).sources@[j] == old(self).sources@[j])
                    && final(self).sources@[i].count.0 == old(self).sources@[i].count.0 + count.0 && final(self).sources@[i].route
                    == old(self).sources@[i].route && final(self).sources@[i].weight == old(self).sources@[i].weight,
            !(exists|i: int| 0 <= i < old(self).sources@.len() && (#[trigger] old(self).sources@[i]).route@ == source@) ==> {
                &&& final(self).sources@.len() == old(self).sources@.len() + 1
                &&& final(self).sources@.drop_last() == old(self).sources@
                &&& final(self).sources@.last().route@ == source@
                &&& final(self).sources@.last().count == count
                &&& call_ensures(weight, (), final(self).sources@.last().weight)
            },
            routes_view(final(self).sources@) == add_route(routes_view(old(self).sources@), count.0 as nat, source@),
            forall|adds: Seq<(nat, Seq<CandidateIndex>)>|
                routes_view(old(self).sources@) == #[trigger] routes_after(adds) ==> routes_view(final(self).sources@)
                    == routes_after(adds.push((count.0 as nat, source@))),
            forall|adds: Seq<(Seq<CandidateIndex>, Seq<char>)>, w: Seq<char>|
                weights_view(old(self).sources@) == weights_after(adds) && (route_in(weights_view(old(self).sources@), source@)
                    || w == final(self).sources@.last().weight@) ==> weights_view(final(self).sources@) == #[trigger] weights_after(
                    adds.push((source@, w)),
                ),
    {
        proof {
            lemma_find_route(routes_view(old(self).sources@), source@);
            assert forall|adds: Seq<(nat, Seq<CandidateIndex>)>| #[trigger] routes_after(adds.push((count.0 as nat, source@)))
                == add_route(routes_after(adds), count.0 as nat, source@) by {
                assert(adds.push((count.0 as nat, source@)).drop_last() =~= adds);
            }
        }
        for i in 0..self.sources.len()
            invariant
                self.sources@ == old(self).sources@,
                forall|j: int| 0 <= j < i ==> (#[trigger] self.sources@[j]).route@ != source@,
        {
            if same_route(&self.sources[i].route, source) {
                let mut entry = self.sources.remove(i);
                entry.count = BallotPaperCount(entry.count.0 + count.0);
                self.sources.insert(i, entry);
                proof {
                    let v = routes_view(old(self).sources@);
                    let k = find_route(v, source@)->0;
                    assert(v[i as int].0 == source@);
                    if k != i {
                        if k < i {
                            assert(old(self).sources@[k].route@ != old(self).sources@[i as int].route@);
                        } else {
                            assert(old(self).sources@[i as int].route@ != old(self).sources@[k].route@);
                        }
                    }
                    assert(routes_view(self.sources@) =~= add_route(v, count.0 as nat, source@));
                    assert(weights_view(self.sources@) =~= weights_view(old(self).sources@));
                    assert(weights_view(old(self).sources@)[i as int].0 == source@);
                    assert forall|adds: Seq<(Seq<CandidateIndex>, Seq<char>)>, w: Seq<char>|
                        weights_view(old(self).sources@) == weights_after(adds) implies weights_view(self.sources@) == #[trigger] weights_after(
                        adds.push((source@, w)),
                    ) by {
                        assert(adds.push((source@, w)).drop_last() =~= adds);
                    }
                }
                assert(routes_distinct(self.sources@)) by {
                    assert forall|a: int, b: int| 0 <= a < b < self.sources@.len() implies (#[trigger] self.sources@[a]).route@
                        != (#[trigger] self.sources@[b]).route@ by {
                        assert(old(self).sources@[a].route@ != old(self).sources@[b].route@);
                    }
                }
                return;
            }
        }
        let w = weight();
        let mut route: Vec<CandidateIndex> = Vec::new();
        for k in 0..source.len()
            invariant
                route@ == source@.take(k as int),
        {
            route.push(source[k]);
            assert(source@.take(k + 1) =~= source@.take(k as int).push(source@[k as int]));
        }
        assert(source@.take(source@.len() as int) =~= source@);
        self.sources.push(MeekVotesWithSameKeepValueRoute { count, weight: w, route });
        proof {
            let v = routes_view(old(self).sources@);
            assert(find_route(v, source@) is None) by {
                if let Some(k) = find_route(v, source@) {
                    assert(old(self).sources@[k].route@ == source@);
                }
            }
            assert(routes_view(self.sources@) =~= add_route(v, count.0 as nat, source@));
            let wv = weights_view(old(self).sources@);
            assert(!route_in(wv, source@)) by {
                if route_in(wv, source@) {
                    let k = choose|k: int| 0 <= k < wv.len() && (#[trigger] wv[k]).0 == source@;
                    assert(old(self).sources@[k].route@ == source@);
                }
            }
            assert(weights_view(self.sources@) =~= wv.push((source@, w@)));
            assert forall|adds: Seq<(Seq<CandidateIndex>, Seq<char>)>, x: Seq<char>|
                wv == weights_after(adds) && x == self.sources@.last().weight@ implies weights_view(self.sources@) == #[trigger] weights_after(
                adds.push((source@, x)),
            ) by {
                assert(adds.push((source@, x)).drop_last() =~= adds);
            }
        }
    }

    /// The routes collected, in the order they were first added.
    pub fn into(self) -> (res: ListOfMeekVoteSources)
        ensures
            res.sources == self.sources,
    {
        ListOfMeekVoteSources { sources: self.sources }
    }
}

} // verus!
