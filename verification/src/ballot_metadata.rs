//! Information about the contest, such as candidates and parties.

use vstd::prelude::*;
use vstd::hash_map::StringHashMap;
use crate::tie_resolution::TieResolutionsMadeByEC;
use crate::text::{chars_of, string_of, trimmed_range, trim, join, texts_of, join_strings, append_str};
use crate::text::{byte_len, is_lowercase, lowercase_char, split_words, strip_all, utf8_len, words};

verus! {

/// A candidate, referred to by position on the ballot paper, 0 being first.
#[derive(Clone, Copy, PartialEq, Eq, Hash, Debug, Structural)]
pub struct CandidateIndex(pub usize);

/// A party, referred to by position on the ballot paper, 0 being first.
#[derive(Clone, Copy, PartialEq, Eq, Hash, Debug, Structural)]
pub struct PartyIndex(pub usize);

/// A number of candidates, e.g. the number of seats or of remaining seats.
#[derive(Clone, Copy, PartialEq, Eq, Hash, Debug, Structural, PartialOrd, Ord)]
pub struct NumberOfCandidates(pub usize);

impl NumberOfCandidates {
    /// The difference of two numbers of candidates.
    pub fn minus(self, rhs: Self) -> (res: NumberOfCandidates)
        requires
            rhs.0 <= self.0,
        ensures
            res.0 == self.0 - rhs.0,
    {
        NumberOfCandidates(self.0 - rhs.0)
    }
}

/// Information about the election.
#[derive(Debug, Clone)]
pub struct ElectionMetadata {
    pub name: ElectionName,
    pub candidates: Vec<Candidate>,
    pub parties: Vec<Party>,
    /// where the data came from, such as a URL.
    pub source: Vec<DataSource>,
    /// the official results, if available.
    pub results: Option<Vec<CandidateIndex>>,
    /// the number of positions to be filled, default.
    pub vacancies: Option<NumberOfCandidates>,
    /// the number of eligible voters.
    pub enrolment: Option<NumberOfCandidates>,
    /// Another number of positions to be filled. Useful for a double dissolution, where two counts are held, some candidates to get longer terms.
    pub secondary_vacancies: Option<NumberOfCandidates>,
    /// Candidates who are usually excluded, e.g. if they died on the election day or were ruled ineligible to stand.
    pub excluded: Vec<CandidateIndex>,
    pub tie_resolutions: TieResolutionsMadeByEC,
}

/// Documentation on where the data files used for this data came from.
#[derive(Debug, Clone)]
pub struct DataSource {
    pub url: String,
    pub files: Vec<String>,
    pub comments: Option<String>,
}

/// Which election it was.
#[derive(Debug, Clone)]
pub struct ElectionName {
    /// The year this election was held
    pub year: String,
    /// The name of the authority running the election, e.g. AEC
    pub authority: String,
    /// the overall name of the election, e.g. Federal
    pub name: String,
    /// region in this contest, e.g. Vic
    pub electorate: String,
    /// modifications made to this data, e.g. simulating errors, hackers. Usually empty.
    pub modifications: Vec<String>,
    /// Whatever you want.
    pub comment: Option<String>,
}

/// Information about a party in the contest. This may be used as a pseudo-party, such as "ungrouped".
#[derive(Debug, Clone)]
pub struct Party {
    /// The name of the column on the ballot paper, typically a letter.
    pub column_id: String,
    /// The name of the party
    pub name: String,
    /// an abbreviation for the party
    pub abbreviation: Option<String>,
    /// true if one is allowed to vote atl for this party.
    pub atl_allowed: bool,
    /// the candidates in this party, in preference order.
    pub candidates: Vec<CandidateIndex>,
    /// the group voting tickets for this party, if any.
    pub tickets: Vec<Vec<CandidateIndex>>,
}

/// Information about a candidate in the contest.
#[derive(Debug, Clone)]
pub struct Candidate {
    pub name: String,
    pub party: Option<PartyIndex>,
    /// position on the party ticket. 1 means first place.
    pub position: Option<usize>,
    /// Electoral Commission internal identifier.
    pub ec_id: Option<String>,
}

/// The name a party is best known by: its name, or if that is empty, its column.
pub open spec fn best_name_spec(p: Party) -> Seq<char> {
    if p.name@.len() == 0 {
        p.column_id@
    } else {
        p.name@
    }
}

/// `i` is where `c` first occurs in `s`.
pub open spec fn first_occurrence(s: Seq<char>, c: char, i: int) -> bool {
    0 <= i < s.len() && s[i] == c && forall|j: int| 0 <= j < i ==> s[j] != c
}

/// A name "Surname, first" as "first Surname"; a name without a comma unchanged.
pub open spec fn no_comma_name_spec(name: Seq<char>) -> Seq<char> {
    if exists|i: int| first_occurrence(name, ',', i) {
        let i = choose|i: int| first_occurrence(name, ',', i);
        trim(name.skip(i + 1)) + seq![' '] + trim(name.take(i))
    } else {
        name
    }
}

/// The map from each key to the index of its last occurrence.
pub open spec fn candidate_lookup(keys: Seq<Seq<char>>) -> Map<Seq<char>, CandidateIndex>
    decreases keys.len(),
{
    if keys.len() == 0 {
        Map::empty()
    } else {
        candidate_lookup(keys.drop_last()).insert(keys.last(), CandidateIndex((keys.len() - 1) as usize))
    }
}

/// The map from each key to the index of its last occurrence.
pub open spec fn party_lookup(keys: Seq<Seq<char>>) -> Map<Seq<char>, PartyIndex>
    decreases keys.len(),
{
    if keys.len() == 0 {
        Map::empty()
    } else {
        party_lookup(keys.drop_last()).insert(keys.last(), PartyIndex((keys.len() - 1) as usize))
    }
}

/// The names of the candidates.
pub open spec fn candidate_names(cs: Seq<Candidate>) -> Seq<Seq<char>> {
    cs.map_values(|c: Candidate| c.name@)
}

/// The names of the parties.
pub open spec fn party_names(ps: Seq<Party>) -> Seq<Seq<char>> {
    ps.map_values(|p: Party| p.name@)
}

/// The column ids of the parties.
pub open spec fn party_ids(ps: Seq<Party>) -> Seq<Seq<char>> {
    ps.map_values(|p: Party| p.column_id@)
}

/// Each candidate found by both its name and its name without a comma (later candidates win).
pub open spec fn two_way_lookup(cs: Seq<Candidate>) -> Map<Seq<char>, CandidateIndex>
    decreases cs.len(),
{
    if cs.len() == 0 {
        Map::empty()
    } else {
        let i = CandidateIndex((cs.len() - 1) as usize);
        two_way_lookup(cs.drop_last()).insert(cs.last().name@, i).insert(no_comma_name_spec(cs.last().name@), i)
    }
}

/// Each candidate with an electoral commission id found by it (later candidates win).
pub open spec fn ec_id_lookup(cs: Seq<Candidate>) -> Map<Seq<char>, CandidateIndex>
    decreases cs.len(),
{
    if cs.len() == 0 {
        Map::empty()
    } else {
        match cs.last().ec_id {
            Some(id) => ec_id_lookup(cs.drop_last()).insert(id@, CandidateIndex((cs.len() - 1) as usize)),
            None => ec_id_lookup(cs.drop_last()),
        }
    }
}

impl Party {
    /// The party name, or, if that is empty, its column id.
    pub fn best_name(&self) -> (res: &str)
        ensures
            res@ == best_name_spec(*self),
    {
        if self.name.as_str().is_empty() {
            self.column_id.as_str()
        } else {
            self.name.as_str()
        }
    }
}

impl Candidate {
    /// If the candidate name is "Surname, first", change to "first Surname".
    pub fn no_comma_name(&self) -> (res: String)
        ensures
            res@ == no_comma_name_spec(self.name@),
    {
        let v = chars_of(self.name.as_str());
        let mut i: usize = 0;
        while i < v.len() && v[i] != ','
            invariant
                i <= v@.len(),
                v@ == self.name@,
                forall|j: int| 0 <= j < i ==> v@[j] != ',',
            decreases v@.len() - i,
        {
            i = i + 1;
        }
        if i == v.len() {
            assert(!exists|k: int| first_occurrence(self.name@, ',', k));
            self.name.clone()
        } else {
            assert(first_occurrence(self.name@, ',', i as int));
            assert forall|k: int| first_occurrence(self.name@, ',', k) implies k == i by {
                if k < i {
                    assert(v@[k] != ',');
                } else if k > i {
                    assert(self.name@[i as int] == ',');
                }
            }
            let mut first = trimmed_range(&v, i + 1, v.len());
            let surname = trimmed_range(&v, 0, i);
            first.push(' ');
            let mut rest = surname;
            first.append(&mut rest);
            assert(v@.subrange(i + 1, v@.len() as int) =~= self.name@.skip(i + 1));
            assert(v@.subrange(0, i as int) =~= self.name@.take(i as int));
            string_of(&first)
        }
    }

    /// A candidate known only by name.
    pub fn from_name(name: &str) -> (res: Self)
        ensures
            res.name@ == name@,
            res.party is None,
            res.position is None,
            res.ec_id is None,
    {
        Candidate { name: name.to_owned(), party: None, position: None, ec_id: None }
    }
}

impl ElectionName {
    /// E.g. "2019 Federal election for Vic." followed by any modifications.
    pub fn human_readable_name(&self) -> (res: String)
        ensures
            res@ == self.year@ + " "@ + self.name@ + " election for "@ + self.electorate@ + "."@ + join(
                texts_of(self.modifications@),
                " & "@,
            ),
    {
        let mut res = self.year.clone();
        append_str(&mut res, " ");
        append_str(&mut res, self.name.as_str());
        append_str(&mut res, " election for ");
        append_str(&mut res, self.electorate.as_str());
        append_str(&mut res, ".");
        let mods = join_strings(&self.modifications, " & ");
        append_str(&mut res, mods.as_str());
        res
    }

    /// An identifier Name_Year_Electorate that could be used as a filename component for this.
    pub fn identifier(&self) -> (res: String)
        ensures
            res@ == self.name@ + "_"@ + self.year@ + "_"@ + self.electorate@ + join(texts_of(self.modifications@), ","@),
    {
        let mut res = self.name.clone();
        append_str(&mut res, "_");
        append_str(&mut res, self.year.as_str());
        append_str(&mut res, "_");
        append_str(&mut res, self.electorate.as_str());
        let mods = join_strings(&self.modifications, ",");
        append_str(&mut res, mods.as_str());
        res
    }
}

impl ElectionMetadata {
    /// The party with the given index.
    pub fn party(&self, index: PartyIndex) -> (res: &Party)
        requires
            index.0 < self.parties@.len(),
        ensures
            *res == self.parties@[index.0 as int],
    {
        &self.parties[index.0]
    }

    /// The candidate with the given index.
    pub fn candidate(&self, index: CandidateIndex) -> (res: &Candidate)
        requires
            index.0 < self.candidates@.len(),
        ensures
            *res == self.candidates@[index.0 as int],
    {
        &self.candidates[index.0]
    }

    /// A map from candidate name to index (the last candidate of a name wins).
    pub fn get_candidate_name_lookup(&self) -> (res: StringHashMap<CandidateIndex>)
        ensures
            res@ == candidate_lookup(candidate_names(self.candidates@)),
    {
        let mut res = StringHashMap::new();
        let ghost names = candidate_names(self.candidates@);
        for i in 0..self.candidates.len()
            invariant
                names == candidate_names(self.candidates@),
                res@ == candidate_lookup(names.take(i as int)),
        {
            assert(names.take(i + 1).drop_last() =~= names.take(i as int));
            res.insert(self.candidates[i].name.clone(), CandidateIndex(i));
        }
        assert(names.take(names.len() as int) =~= names);
        res
    }

    /// A map from party name to index (the last party of a name wins).
    pub fn get_party_name_lookup(&self) -> (res: StringHashMap<PartyIndex>)
        ensures
            res@ == party_lookup(party_names(self.parties@)),
    {
        let mut res = StringHashMap::new();
        let ghost names = party_names(self.parties@);
        for i in 0..self.parties.len()
            invariant
                names == party_names(self.parties@),
                res@ == party_lookup(names.take(i as int)),
        {
            assert(names.take(i + 1).drop_last() =~= names.take(i as int));
            res.insert(self.parties[i].name.clone(), PartyIndex(i));
        }
        assert(names.take(names.len() as int) =~= names);
        res
    }

    /// A map from party column id to index (the last party of an id wins).
    pub fn get_party_id_lookup(&self) -> (res: StringHashMap<PartyIndex>)
        ensures
            res@ == party_lookup(party_ids(self.parties@)),
    {
        let mut res = StringHashMap::new();
        let ghost ids = party_ids(self.parties@);
        for i in 0..self.parties.len()
            invariant
                ids == party_ids(self.parties@),
                res@ == party_lookup(ids.take(i as int)),
        {
            assert(ids.take(i + 1).drop_last() =~= ids.take(i as int));
            res.insert(self.parties[i].column_id.clone(), PartyIndex(i));
        }
        assert(ids.take(ids.len() as int) =~= ids);
        res
    }

    /// A map from candidate name to index, with both the name and the name without a comma.
    pub fn get_candidate_name_lookup_multiple_ways(&self) -> (res: StringHashMap<CandidateIndex>)
        ensures
            res@ == two_way_lookup(self.candidates@),
    {
        let mut res = StringHashMap::new();
        for i in 0..self.candidates.len()
            invariant
                res@ == two_way_lookup(self.candidates@.take(i as int)),
        {
            assert(self.candidates@.take(i + 1).drop_last() =~= self.candidates@.take(i as int));
            res.insert(self.candidates[i].name.clone(), CandidateIndex(i));
            res.insert(self.candidates[i].no_comma_name(), CandidateIndex(i));
        }
        assert(self.candidates@.take(self.candidates@.len() as int) =~= self.candidates@);
        res
    }

    /// A map from electoral commission id to candidate, for candidates that have one.
    pub fn get_candidate_ec_id_lookup(&self) -> (res: StringHashMap<CandidateIndex>)
        ensures
            res@ == ec_id_lookup(self.candidates@),
    {
        let mut res = StringHashMap::new();
        for i in 0..self.candidates.len()
            invariant
                res@ == ec_id_lookup(self.candidates@.take(i as int)),
        {
            assert(self.candidates@.take(i + 1).drop_last() =~= self.candidates@.take(i as int));
            if let Some(id) = &self.candidates[i].ec_id {
                res.insert(id.clone(), CandidateIndex(i));
            }
        }
        assert(self.candidates@.take(self.candidates@.len() as int) =~= self.candidates@);
        res
    }

    /// All the candidate indices starting at 0.
    pub fn candidate_indices(&self) -> (res: Vec<CandidateIndex>)
        ensures
            res@ == Seq::new(self.candidates@.len(), |i: int| CandidateIndex(i as usize)),
    {
        let mut res: Vec<CandidateIndex> = Vec::new();
        for i in 0..self.candidates.len()
            invariant
                res@ == Seq::new(i as nat, |k: int| CandidateIndex(k as usize)),
        {
            res.push(CandidateIndex(i));
            assert(res@ =~= Seq::new((i + 1) as nat, |k: int| CandidateIndex(k as usize)));
        }
        res
    }

    /// The names of the listed candidates, separated by ", ".
    #[verifier::loop_isolation(false)]
    pub fn candidate_list_to_string(&self, list: &[CandidateIndex]) -> (res: String)
        requires
            forall|i: int| 0 <= i < list@.len() ==> (#[trigger] list@[i]).0 < self.candidates@.len(),
        ensures
            res@ == join(list@.map_values(|c: CandidateIndex| self.candidates@[c.0 as int].name@), ", "@),
    {
        let mut names: Vec<String> = Vec::new();
        for i in 0..list.len()
            invariant
                names@.len() == i,
                forall|j: int| 0 <= j < i ==> (#[trigger] names@[j])@ == self.candidates@[list@[j].0 as int].name@,
        {
            names.push(self.candidates[list[i].0].name.clone());
        }
        let res = join_strings(&names, ", ");
        assert(texts_of(names@) =~= list@.map_values(|c: CandidateIndex| self.candidates@[c.0 as int].name@));
        res
    }

    /// The best names of the listed parties, separated by ", ".
    #[verifier::loop_isolation(false)]
    pub fn party_list_to_string(&self, list: &[PartyIndex]) -> (res: String)
        requires
            forall|i: int| 0 <= i < list@.len() ==> (#[trigger] list@[i]).0 < self.parties@.len(),
        ensures
            res@ == join(list@.map_values(|p: PartyIndex| best_name_spec(self.parties@[p.0 as int])), ", "@),
    {
        let mut names: Vec<String> = Vec::new();
        for i in 0..list.len()
            invariant
                names@.len() == i,
                forall|j: int| 0 <= j < i ==> (#[trigger] names@[j])@ == best_name_spec(self.parties@[list@[j].0 as int]),
        {
            names.push(self.parties[list[i].0].best_name().to_owned());
        }
        let res = join_strings(&names, ", ");
        assert(texts_of(names@) =~= list@.map_values(|p: PartyIndex| best_name_spec(self.parties@[p.0 as int])));
        res
    }
}

/// Builds the candidates and parties of an election from files that list parties in ballot
/// order, each followed by its candidates in ballot order.
#[derive(Debug, Clone)]
pub struct CandidateAndPartyBuilder {
    pub candidates: Vec<Candidate>,
    pub parties: Vec<Party>,
    pub source: Vec<DataSource>,
    pub results: Option<Vec<CandidateIndex>>,
}

/// A problem building the metadata.
#[derive(Debug, Clone)]
pub enum ParseMetadataError {
    /// there were no parties when one was expected
    PartyExpectedButNotAvailable,
    /// could not find candidate name
    UnknownCandidateName(String),
}

impl CandidateAndPartyBuilder {
    /// Nothing yet.
    pub fn default() -> (res: Self)
        ensures
            res.candidates@.len() == 0,
            res.parties@.len() == 0,
            res.source@.len() == 0,
            res.results is None,
    {
        CandidateAndPartyBuilder { candidates: Vec::new(), parties: Vec::new(), source: Vec::new(), results: None }
    }

    /// The party added last.
    pub fn last_party(&self) -> (res: Result<&Party, ParseMetadataError>)
        ensures
            self.parties@.len() == 0 ==> res matches Err(ParseMetadataError::PartyExpectedButNotAvailable),
            self.parties@.len() > 0 ==> (res matches Ok(p) && *p == self.parties@.last()),
    {
        if self.parties.len() == 0 {
            Err(ParseMetadataError::PartyExpectedButNotAvailable)
        } else {
            Ok(&self.parties[self.parties.len() - 1])
        }
    }

    /// The party added last, to change.
    pub fn last_party_mut(&mut self) -> (res: Result<&mut Party, ParseMetadataError>)
        ensures
            old(self).parties@.len() == 0 ==> res matches Err(ParseMetadataError::PartyExpectedButNotAvailable),
            old(self).parties@.len() == 0 ==> *final(self) == *old(self),
            old(self).parties@.len() > 0 ==> res is Ok,
            res matches Ok(p) ==> *p == old(self).parties@.last(),
            res matches Ok(p) ==> final(self).parties@ == old(self).parties@.update(old(self).parties@.len() - 1, *final(p)),
            old(self).candidates == final(self).candidates,
            old(self).source == final(self).source,
            old(self).results == final(self).results,
    {
        let n = self.parties.len();
        if n == 0 {
            Err(ParseMetadataError::PartyExpectedButNotAvailable)
        } else {
            Ok(self.parties.last_mut().unwrap())
        }
    }

    /// Add a new party. Candidates will be added later.
    pub fn add_party(&mut self, column_id: &str, name: &str, abbreviation: Option<&str>, atl_allowed: bool)
        ensures
            final(self).parties@.len() == old(self).parties@.len() + 1,
            final(self).parties@.drop_last() == old(self).parties@,
            final(self).parties@.last().column_id@ == column_id@,
            final(self).parties@.last().name@ == name@,
            final(self).parties@.last().abbreviation matches Some(a) ==> abbreviation matches Some(b) && a@ == b@,
            final(self).parties@.last().abbreviation is None <==> abbreviation is None,
            final(self).parties@.last().atl_allowed == atl_allowed,
            final(self).parties@.last().candidates@.len() == 0,
            final(self).parties@.last().tickets@.len() == 0,
            final(self).candidates == old(self).candidates,
            final(self).source == old(self).source,
            final(self).results == old(self).results,
    {
        let abbreviation = match abbreviation {
            Some(a) => Some(a.to_owned()),
            None => None,
        };
        self.parties.push(
            Party {
                column_id: column_id.to_owned(),
                name: name.to_owned(),
                abbreviation,
                atl_allowed,
                candidates: Vec::new(),
                tickets: Vec::new(),
            },
        );
    }

    /// Add a new candidate to the last party, next in position among its candidates.
    pub fn add_candidate_to_last_party(&mut self, name: &str, ec_id: Option<&str>, alternate_name: Option<&str>) -> (res: Result<(), ParseMetadataError>)
        requires
            old(self).parties@.len() > 0 ==> old(self).parties@.last().candidates@.len() < usize::MAX,
        ensures
            old(self).parties@.len() == 0 ==> (res matches Err(ParseMetadataError::PartyExpectedButNotAvailable)
                && *final(self) == *old(self)),
            old(self).parties@.len() > 0 ==> {
                let n = old(self).parties@.len() - 1;
                let last = old(self).parties@[n];
                let added = final(self).candidates@.last();
                &&& res is Ok
                &&& final(self).parties@.len() == old(self).parties@.len()
                &&& final(self).parties@.drop_last() == old(self).parties@.drop_last()
                &&& final(self).parties@[n].candidates@ == last.candidates@.push(CandidateIndex(old(self).candidates@.len() as usize))
                &&& final(self).parties@[n].column_id == last.column_id
                &&& final(self).parties@[n].name == last.name
                &&& final(self).parties@[n].abbreviation == last.abbreviation
                &&& final(self).parties@[n].atl_allowed == last.atl_allowed
                &&& final(self).parties@[n].tickets == last.tickets
                &&& final(self).candidates@.drop_last() == old(self).candidates@
                &&& final(self).candidates@.len() == old(self).candidates@.len() + 1
                &&& added.name@ == name@
                &&& added.party == Some(PartyIndex(n as usize))
                &&& added.position == Some((last.candidates@.len() + 1) as usize)
                &&& (added.ec_id is None <==> ec_id is None)
                &&& (added.ec_id matches Some(a) ==> ec_id matches Some(b) && a@ == b@)
                &&& final(self).source == old(self).source
                &&& final(self).results == old(self).results
            },
    {
        if self.parties.len() == 0 {
            return Err(ParseMetadataError::PartyExpectedButNotAvailable);
        }
        let candidate_index = CandidateIndex(self.candidates.len());
        let n = self.parties.len() - 1;
        let mut party = self.parties.remove(n);
        party.candidates.push(candidate_index);
        let position = party.candidates.len();
        self.parties.push(party);
        let ec_id = match ec_id {
            Some(a) => Some(a.to_owned()),
            None => None,
        };
        self.candidates.push(
            Candidate { name: name.to_owned(), party: Some(PartyIndex(n)), position: Some(position), ec_id },
        );
        assert(self.parties@.drop_last() =~= old(self).parties@.drop_last());
        Ok(())
    }

    /// True iff there is a last party added and it has the provided name.
    pub fn last_party_is_called(&self, name: &str) -> (res: bool)
        ensures
            res == (self.parties@.len() > 0 && self.parties@.last().name@ == name@),
    {
        if self.parties.len() == 0 {
            false
        } else {
            crate::text::str_equals(self.parties[self.parties.len() - 1].name.as_str(), name)
        }
    }

    /// Record a data source whose file name is given directly.
    pub fn add_source_different_filename(&mut self, url: &str, filename: &str)
        ensures
            final(self).source@.len() == old(self).source@.len() + 1,
            final(self).source@.drop_last() == old(self).source@,
            final(self).source@.last().url@ == url@,
            final(self).source@.last().files@.len() == 1,
            final(self).source@.last().files@[0]@ == filename@,
            final(self).source@.last().comments is None,
            final(self).candidates == old(self).candidates,
            final(self).parties == old(self).parties,
            final(self).results == old(self).results,
    {
        let mut files: Vec<String> = Vec::new();
        files.push(filename.to_owned());
        self.source.push(DataSource { url: url.to_owned(), files, comments: None });
    }

    /// The index of the first candidate with the given name.
    pub fn candidate_index(&self, candidate_name: &str) -> (res: Result<CandidateIndex, ParseMetadataError>)
        ensures
            match res {
                Ok(c) => c.0 < self.candidates@.len() && self.candidates@[c.0 as int].name@ == candidate_name@ && forall|j: int|
                    0 <= j < c.0 ==> (#[trigger] self.candidates@[j]).name@ != candidate_name@,
                Err(e) => (e matches ParseMetadataError::UnknownCandidateName(n) && n@ == candidate_name@) && forall|j: int|
                    0 <= j < self.candidates@.len() ==> (#[trigger] self.candidates@[j]).name@ != candidate_name@,
            },
    {
        for i in 0..self.candidates.len()
            invariant
                forall|j: int| 0 <= j < i ==> (#[trigger] self.candidates@[j]).name@ != candidate_name@,
        {
            if crate::text::str_equals(candidate_name, self.candidates[i].name.as_str()) {
                return Ok(CandidateIndex(i));
            }
        }
        Err(ParseMetadataError::UnknownCandidateName(candidate_name.to_owned()))
    }

    /// Add the named candidate to the list of those elected.
    pub fn declare_elected(&mut self, candidate_name: &str) -> (res: Result<(), ParseMetadataError>)
        ensures
            old(self).candidate_index_spec(candidate_name@) is None ==> (res matches Err(
                ParseMetadataError::UnknownCandidateName(n),
            ) && n@ == candidate_name@) && *final(self) == *old(self),
            old(self).candidate_index_spec(candidate_name@) is Some ==> res is Ok,
            match old(self).candidate_index_spec(candidate_name@) {
                Some(c) => final(self).results matches Some(v) && v@ == (match old(self).results {
                    Some(w) => w@,
                    None => Seq::<CandidateIndex>::empty(),
                }).push(c),
                None => true,
            },
            final(self).candidates == old(self).candidates,
            final(self).parties == old(self).parties,
            final(self).source == old(self).source,
    {
        let candidate = match self.candidate_index(candidate_name) {
            Ok(c) => c,
            Err(e) => return Err(e),
        };
        let mut results = match self.results.take() {
            Some(v) => v,
            None => Vec::new(),
        };
        results.push(candidate);
        self.results = Some(results);
        Ok(())
    }

    /// The first candidate of the given name, if any.
    pub open spec fn candidate_index_spec(&self, name: Seq<char>) -> Option<CandidateIndex> {
        if exists|i: int| 0 <= i < self.candidates@.len() && self.candidates@[i].name@ == name {
            let i = choose|i: int|
                0 <= i < self.candidates@.len() && self.candidates@[i].name@ == name && forall|j: int|
                    0 <= j < i ==> self.candidates@[j].name@ != name;
            Some(CandidateIndex(i as usize))
        } else {
            None
        }
    }
}

} // verus!

verus! {

/// A name component that reads as a surname: more than one byte long (one letter is probably an
/// initial), and, after taking off any leading "Mac" and then any leading "Mc", not empty and
/// with no lowercase letter.
pub open spec fn is_surname(s: Seq<char>) -> bool {
    let no_mac = strip_all(strip_all(s, seq!['M', 'a', 'c']), seq!['M', 'c']);
    byte_len(s) > 1 && no_mac.len() > 0 && forall|i: int| 0 <= i < no_mac.len() ==> !lowercase_char(#[trigger] no_mac[i])
}

/// How many of the leading components are surnames.
pub open spec fn surname_count(ws: Seq<Seq<char>>) -> nat
    decreases ws.len(),
{
    if ws.len() > 0 && is_surname(ws[0]) {
        1 + surname_count(ws.drop_first())
    } else {
        0
    }
}

/// A name with its leading surnames moved to the end: "SMITH Fred" becomes "Fred SMITH".
pub open spec fn capitals_last(name: Seq<char>) -> Seq<char> {
    let ws = words(name);
    let k = surname_count(ws) as int;
    join(ws.skip(k) + ws.take(k), seq![' '])
}

/// The names of the candidates, each with its leading surnames moved to the end.
pub open spec fn capitals_last_names(cs: Seq<Candidate>) -> Seq<Seq<char>> {
    cs.map_values(|c: Candidate| capitals_last(c.name@))
}

/// The text with every leading copy of `p` removed.
#[verifier::loop_isolation(false)]
fn strip_all_exec(v: &Vec<char>, p: &Vec<char>) -> (res: Vec<char>)
    ensures
        res@ == strip_all(v@, p@),
{
    let mut start: usize = 0;
    assert(v@.skip(0) =~= v@);
    if p.len() > 0 {
        loop
            invariant
                start <= v@.len(),
                p@.len() > 0,
                strip_all(v@, p@) == strip_all(v@.skip(start as int), p@),
            decreases v@.len() - start,
        {
            if v.len() - start < p.len() {
                assert(strip_all(v@.skip(start as int), p@) == v@.skip(start as int));
                break;
            }
            let mut k: usize = 0;
            while k < p.len() && v[start + k] == p[k]
                invariant
                    start + p@.len() <= v@.len(),
                    k <= p@.len(),
                    forall|m: int| 0 <= m < k ==> v@[start + m] == p@[m],
                decreases p@.len() - k,
            {
                k = k + 1;
            }
            let ghost rest = v@.skip(start as int);
            if k < p.len() {
                assert(rest.take(p@.len() as int)[k as int] == v@[start + k]);
                assert(strip_all(rest, p@) == rest);
                break;
            }
            assert(rest.take(p@.len() as int) =~= p@);
            assert(rest.skip(p@.len() as int) =~= v@.skip(start + p@.len()));
            start = start + p.len();
        }
    }
    let mut res: Vec<char> = Vec::new();
    for i in start..v.len()
        invariant
            res@ == v@.subrange(start as int, i as int),
    {
        res.push(v[i]);
        assert(v@.subrange(start as int, i + 1) =~= v@.subrange(start as int, i as int).push(v@[i as int]));
    }
    assert(v@.subrange(start as int, v@.len() as int) =~= v@.skip(start as int));
    res
}

/// A text of at least two characters is more than one byte long, and so is one character beyond ASCII.
proof fn lemma_byte_len(s: Seq<char>)
    ensures
        byte_len(s) >= s.len(),
        s.len() == 1 ==> byte_len(s) == utf8_len(s[0]),
    decreases s.len(),
{
    if s.len() > 0 {
        lemma_byte_len(s.drop_last());
        if s.len() == 1 {
            assert(s.drop_last().len() == 0);
        }
    }
}

/// Whether a name component reads as a surname.
#[verifier::loop_isolation(false)]
fn is_surname_exec(s: &String) -> (res: bool)
    ensures
        res == is_surname(s@),
{
    let chars = chars_of(s.as_str());
    proof {
        lemma_byte_len(s@);
    }
    let long_enough = chars.len() >= 2 || (chars.len() == 1 && (chars[0] as u32) >= 0x80);
    if !long_enough {
        proof {
            if s@.len() == 0 {
                assert(byte_len(s@) == 0);
            }
        }
        return false;
    }
    let mut mac: Vec<char> = Vec::new();
    mac.push('M');
    mac.push('a');
    mac.push('c');
    let mut mc: Vec<char> = Vec::new();
    mc.push('M');
    mc.push('c');
    assert(mac@ =~= seq!['M', 'a', 'c']);
    assert(mc@ =~= seq!['M', 'c']);
    let no_mac_1 = strip_all_exec(&chars, &mac);
    let no_mac = strip_all_exec(&no_mac_1, &mc);
    if no_mac.len() == 0 {
        return false;
    }
    for i in 0..no_mac.len()
        invariant
            forall|j: int| 0 <= j < i ==> !lowercase_char(#[trigger] no_mac@[j]),
    {
        if is_lowercase(no_mac[i]) {
            return false;
        }
    }
    true
}

/// A name with its leading surnames moved to the end.
fn capitals_last_exec(name: &String) -> (res: String)
    ensures
        res@ == capitals_last(name@),
{
    let components = split_words(name.as_str());
    let ghost ws = words(name@);
    let mut k: usize = 0;
    assert(ws.skip(0) =~= ws);
    while k < components.len() && is_surname_exec(&components[k])
        invariant
            k <= components@.len(),
            texts_of(components@) == ws,
            surname_count(ws) == k + surname_count(ws.skip(k as int)),
        decreases components@.len() - k,
    {
        assert(ws.skip(k as int)[0] == ws[k as int]);
        assert(ws.skip(k as int).drop_first() =~= ws.skip(k + 1));
        k = k + 1;
    }
    proof {
        if k < components@.len() {
            assert(ws.skip(k as int)[0] == ws[k as int]);
        }
    }
    let mut parts: Vec<String> = Vec::new();
    for i in k..components.len()
        invariant
            k <= components@.len(),
            texts_of(components@) == ws,
            texts_of(parts@) == ws.subrange(k as int, i as int),
    {
        let ghost before = parts@;
        parts.push(components[i].clone());
        assert(texts_of(parts@) =~= texts_of(before).push(ws[i as int]));
        assert(ws.subrange(k as int, i + 1) =~= ws.subrange(k as int, i as int).push(ws[i as int]));
    }
    for i in 0..k
        invariant
            k <= components@.len(),
            texts_of(components@) == ws,
            texts_of(parts@) == ws.subrange(k as int, ws.len() as int) + ws.take(i as int),
    {
        let ghost before = parts@;
        parts.push(components[i].clone());
        assert(texts_of(parts@) =~= texts_of(before).push(ws[i as int]));
        assert(ws.take(i + 1) =~= ws.take(i as int).push(ws[i as int]));
    }
    assert(ws.subrange(k as int, ws.len() as int) =~= ws.skip(k as int));
    assert(surname_count(ws) == k);
    let res = join_strings(&parts, " ");
    proof {
        reveal_strlit(" ");
    }
    assert(" "@ == seq![' ']);
    res
}

impl ElectionMetadata {
    /// Get a map from candidate name to index, writing names like "SMITH Fred" as "Fred SMITH".
    pub fn get_candidate_name_lookup_with_capital_letters_afterwards(&self) -> (res: StringHashMap<CandidateIndex>)
        ensures
            res@ == candidate_lookup(capitals_last_names(self.candidates@)),
    {
        let mut res = StringHashMap::new();
        let ghost names = capitals_last_names(self.candidates@);
        for i in 0..self.candidates.len()
            invariant
                names == capitals_last_names(self.candidates@),
                res@ == candidate_lookup(names.take(i as int)),
        {
            assert(names.take(i + 1).drop_last() =~= names.take(i as int));
            let reordered = capitals_last_exec(&self.candidates[i].name);
            res.insert(reordered, CandidateIndex(i));
        }
        assert(names.take(names.len() as int) =~= names);
        res
    }
}

} // verus!
