//! The Victorian Electoral Commission's data: the candidates, groups and above the line votes
//! from the spreadsheet of votes received, and the ballot papers, one record each, as the
//! commission gives them (records of text fields, some of them headings).

use vstd::prelude::*;
use crate::ballot_metadata::{
    Candidate, CandidateIndex, DataSource, ElectionMetadata, ElectionName, NumberOfCandidates, Party, PartyIndex,
};
use crate::ballot_pile::BallotPaperCount;
use crate::parse_util::{max_row_len, CalamineLikeWrapper};
use crate::text::{
    is_white, split_once_spec, ends_with, parse_unsigned, parse_unsigned_spec, split_on, split_text, starts_with, str_equals, text_ends_with,
    text_starts_with, texts_of, to_uppercase, trim, uppercase_text,
};
use crate::tie_resolution::TieResolutionsMadeByEC;
use crate::ballot_paper::{
    is_preference_stream, parse_marking, parse_marking_spec, stream_len, RawBallotMarking, RawBallotMarkings, BTL,
};
use crate::election_data::ElectionData;
use crate::text::is_digit;

verus! {

/// One or more decimal digits.
pub open spec fn all_digits(s: Seq<char>) -> bool {
    s.len() > 0 && forall|i: int| 0 <= i < s.len() ==> is_digit(#[trigger] s[i])
}

/// A record that is a ballot paper (not a heading): a number, then one field per candidate.
pub open spec fn is_paper_record(r: Seq<String>, num_candidates: nat) -> bool {
    r.len() == num_candidates + 1 && all_digits(r[0]@)
}

/// The markings of a ballot paper record, candidate by candidate.
pub open spec fn record_markings(r: Seq<String>, num_candidates: nat) -> Seq<RawBallotMarking> {
    Seq::new(num_candidates, |i: int| parse_marking_spec(r[i + 1]@))
}

/// The markings of the ballot papers among the records, in order.
pub open spec fn papers_in_records(records: Seq<Vec<String>>, num_candidates: nat) -> Seq<Seq<RawBallotMarking>>
    decreases records.len(),
{
    if records.len() == 0 {
        Seq::empty()
    } else {
        let rest = papers_in_records(records.drop_last(), num_candidates);
        if is_paper_record(records.last()@, num_candidates) {
            rest.push(record_markings(records.last()@, num_candidates))
        } else {
            rest
        }
    }
}

/// The papers with at least one preference below the line, in order.
pub open spec fn formal_papers(papers: Seq<Seq<RawBallotMarking>>) -> Seq<Seq<RawBallotMarking>>
    decreases papers.len(),
{
    if papers.len() == 0 {
        Seq::empty()
    } else if stream_len(papers.last(), true) >= 1 {
        formal_papers(papers.drop_last()).push(papers.last())
    } else {
        formal_papers(papers.drop_last())
    }
}

/// The number of papers without any preference below the line.
pub open spec fn informal_papers(papers: Seq<Seq<RawBallotMarking>>) -> nat
    decreases papers.len(),
{
    if papers.len() == 0 {
        0
    } else {
        informal_papers(papers.drop_last()) + if stream_len(papers.last(), true) >= 1 {
            0nat
        } else {
            1nat
        }
    }
}

/// The two lists of metadata are the same but for the sources of the data.
pub open spec fn same_but_source(a: ElectionMetadata, b: ElectionMetadata) -> bool {
    &&& a.name == b.name
    &&& a.candidates == b.candidates
    &&& a.parties == b.parties
    &&& a.results == b.results
    &&& a.vacancies == b.vacancies
    &&& a.enrolment == b.enrolment
    &&& a.secondary_vacancies == b.secondary_vacancies
    &&& a.excluded == b.excluded
    &&& a.tie_resolutions == b.tie_resolutions
}

/// True iff the text is one or more decimal digits.
fn is_number(s: &String) -> (res: bool)
    ensures
        res == all_digits(s@),
{
    let chars = crate::text::chars_of(s.as_str());
    if chars.len() == 0 {
        return false;
    }
    for i in 0..chars.len()
        invariant
            chars@ == s@,
            forall|k: int| 0 <= k < i ==> is_digit(#[trigger] chars@[k]),
    {
        if !(chars[i] >= '0' && chars[i] <= '9') {
            return false;
        }
    }
    true
}

/// The votes in the records of a ballot paper file: each record that is a ballot paper (a
/// number, then one field per candidate) is read as a vote below the line, or counted as
/// informal if it has no first preference. Other records (headings) are skipped. The file is
/// noted as a source of the data.
#[verifier::loop_isolation(false)]
pub fn vic_votes_from_records(records: &Vec<Vec<String>>, metadata: ElectionMetadata, filename: &str) -> (res: ElectionData)
    ensures
        same_but_source(res.metadata, metadata),
        res.metadata.source@.drop_last() == metadata.source@,
        res.metadata.source@.last().url@ == "VEC does not publish unfortunately"@,
        res.metadata.source@.last().files@.len() == 1,
        res.metadata.source@.last().files@[0]@ == filename@,
        res.metadata.source@.last().comments is None,
        ({
            let papers = papers_in_records(records@, metadata.candidates@.len() as nat);
            let formal = formal_papers(papers);
            &&& res.btl@.len() == formal.len()
            &&& forall|i: int|
                0 <= i < formal.len() ==> (#[trigger] res.btl@[i]).n == 1 && is_preference_stream(
                    formal[i],
                    true,
                    res.btl@[i].candidates@.map_values(|c: crate::ballot_metadata::CandidateIndex| c.0),
                )
            &&& res.informal == informal_papers(papers)
        }),
        res.atl@.len() == 0,
        res.atl_types@.len() == 0,
        res.atl_transfer_values@.len() == 0,
        res.btl_types@.len() == 0,
        res.btl_transfer_values@.len() == 0,
{
    let nc = metadata.candidates.len();
    let ghost n = nc as nat;
    let mut btl: Vec<BTL> = Vec::new();
    let mut informal: usize = 0;
    let no_markings: Vec<RawBallotMarking> = Vec::new();
    let no_parties: Vec<crate::ballot_metadata::PartyIndex> = Vec::new();
    for i in 0..records.len()
        invariant
            informal <= i,
            ({
                let papers = papers_in_records(records@.take(i as int), n);
                let formal = formal_papers(papers);
                &&& btl@.len() == formal.len()
                &&& forall|k: int|
                    0 <= k < formal.len() ==> (#[trigger] btl@[k]).n == 1 && is_preference_stream(
                        formal[k],
                        true,
                        btl@[k].candidates@.map_values(|c: crate::ballot_metadata::CandidateIndex| c.0),
                    )
                &&& informal == informal_papers(papers)
            }),
    {
        let r = &records[i];
        let ghost before = papers_in_records(records@.take(i as int), n);
        assert(records@.take(i + 1).drop_last() =~= records@.take(i as int));
        assert(records@.take(i + 1).last() == records@[i as int]);
        if r.len() > 0 && r.len() - 1 == nc && is_number(&r[0]) {
            let mut markings: Vec<RawBallotMarking> = Vec::new();
            for k in 0..nc
                invariant
                    r@.len() == nc + 1,
                    markings@.len() == k,
                    forall|q: int| 0 <= q < k ==> #[trigger] markings@[q] == parse_marking_spec(r@[q + 1]@),
            {
                markings.push(parse_marking(r[k + 1].as_str()));
            }
            assert(markings@ =~= record_markings(r@, n));
            let paper = RawBallotMarkings {
                atl: no_markings.as_slice(),
                btl: markings.as_slice(),
                atl_parties: no_parties.as_slice(),
            };
            let ghost m = markings@;
            proof {
                assert(before.push(m).drop_last() =~= before);
            }
            match paper.interpret_vote_as_btl(1) {
                Some(b) => {
                    btl.push(b);
                },
                None => {
                    informal = informal + 1;
                },
            }
        }
    }
    assert(records@.take(records@.len() as int) =~= records@);
    let mut metadata = metadata;
    let mut files: Vec<String> = Vec::new();
    files.push(filename.to_owned());
    metadata.source.push(DataSource { url: "VEC does not publish unfortunately".to_owned(), files, comments: None });
    ElectionData {
        metadata,
        atl: Vec::new(),
        atl_types: Vec::new(),
        atl_transfer_values: Vec::new(),
        btl,
        btl_types: Vec::new(),
        btl_transfer_values: Vec::new(),
        informal,
    }
}

/// What can go wrong reading the candidates and parties from the votes received spreadsheet.
#[derive(Clone, Debug)]
pub enum VicMetadataError {
    /// No row of headings (a first cell ending in " District").
    NoHeadingsRow,
    /// No row of region totals (a first cell reading "Region Total").
    NoRegionTotalRow,
    /// The above the line votes of a group are not a number.
    BadAtlVotes,
    /// A group came without a column of above the line votes (the group's column id).
    MissingAtlVotes(String),
}

/// What is wrong with the headings, as found reading them.
pub enum HeadingsProblem {
    BadAtlVotes,
    /// A group (with this column id) without a column of above the line votes.
    MissingAtlVotes(Seq<char>),
}

/// The candidates, groups and above the line votes read so far from the headings: each
/// candidate as (name, group, position in the group), each group as (column id, name, whether
/// it may be voted for above the line, its candidates), the name of the current group, the
/// position the next candidate in it has, and the above the line votes of each group.
#[verifier::ext_equal]
pub struct HeadingsRead {
    pub candidates: Seq<(Seq<char>, Option<nat>, Option<nat>)>,
    pub parties: Seq<(Seq<char>, Seq<char>, bool, Seq<nat>)>,
    pub current_party: Seq<char>,
    pub position: nat,
    pub atl_votes: Seq<nat>,
}

/// Nothing read yet.
pub open spec fn headings_start() -> HeadingsRead {
    HeadingsRead {
        candidates: Seq::empty(),
        parties: Seq::empty(),
        current_party: Seq::empty(),
        position: 0,
        atl_votes: Seq::empty(),
    }
}

/// The text of the cell, if there is one and it is not empty.
pub open spec fn cell_text(sheet: Seq<Vec<String>>, row: int, col: int) -> Option<Seq<char>> {
    if 0 <= row < sheet.len() && 0 <= col < sheet[row]@.len() && sheet[row]@[col]@.len() > 0 {
        Some(sheet[row]@[col]@)
    } else {
        None
    }
}

/// The cell starts the row of headings.
pub open spec fn is_headings_cell(c: Option<Seq<char>>) -> bool {
    c matches Some(s) && ends_with(s, " District"@)
}

/// The cell starts the row of region totals.
pub open spec fn is_region_total_cell(c: Option<Seq<char>>) -> bool {
    c matches Some(s) && uppercase_text(trim(s)) == "REGION TOTAL"@
}

/// `row` is the first row of headings.
pub open spec fn headings_row_is(sheet: Seq<Vec<String>>, row: int) -> bool {
    &&& 0 <= row < sheet.len()
    &&& is_headings_cell(cell_text(sheet, row, 0))
    &&& forall|r: int| 0 <= r < row ==> !is_headings_cell(#[trigger] cell_text(sheet, r, 0))
}

/// `row` is the first row of region totals.
pub open spec fn total_row_is(sheet: Seq<Vec<String>>, row: int) -> bool {
    &&& 0 <= row < sheet.len()
    &&& is_region_total_cell(cell_text(sheet, row, 0))
    &&& forall|r: int| 0 <= r < row ==> !is_region_total_cell(#[trigger] cell_text(sheet, r, 0))
}

/// Some row is one of headings.
pub open spec fn has_headings_row(sheet: Seq<Vec<String>>) -> bool {
    exists|r: int| 0 <= r < sheet.len() && is_headings_cell(#[trigger] cell_text(sheet, r, 0))
}

/// Some row is one of region totals.
pub open spec fn has_total_row(sheet: Seq<Vec<String>>) -> bool {
    exists|r: int| 0 <= r < sheet.len() && is_region_total_cell(#[trigger] cell_text(sheet, r, 0))
}

/// The state after reading one more column: its heading and its region total.
pub open spec fn read_heading(st: HeadingsRead, heading: Option<Seq<char>>, total: Option<Seq<char>>) -> Result<HeadingsRead, HeadingsProblem> {
    match heading {
        None => Ok(st),
        Some(h) => {
            let lines = split_on(h, '\n');
            let n = lines.len();
            if n == 3 || (n == 2 && starts_with(lines[0], "Group "@)) {
                let last = lines[n - 1];
                let with_atl: Result<HeadingsRead, HeadingsProblem> = if last == "ATL"@ {
                    match total {
                        Some(t) => match parse_unsigned_spec(t, usize::MAX as nat) {
                            Some(v) => Ok(HeadingsRead { atl_votes: st.atl_votes.push(v), ..st }),
                            None => Err(HeadingsProblem::BadAtlVotes),
                        },
                        None => Ok(st),
                    }
                } else {
                    Ok(st)
                };
                match with_atl {
                    Err(e) => Err(e),
                    Ok(st1) => if last != "ATL"@ && last != "TOTAL"@ {
                        let party_line = lines[n - 2];
                        let had_atl = st1.atl_votes.len() == st1.parties.len() + 1;
                        let new_party = st1.parties.len() == 0 || st1.current_party != party_line;
                        if new_party && !had_atl && st1.atl_votes.len() != st1.parties.len() {
                            Err(HeadingsProblem::MissingAtlVotes(lines[0]))
                        } else {
                            let st2 = if new_party {
                                HeadingsRead {
                                    parties: st1.parties.push(
                                        (lines[0], if n == 3 { party_line } else { Seq::empty() }, had_atl, Seq::empty()),
                                    ),
                                    current_party: party_line,
                                    position: 1,
                                    atl_votes: if had_atl { st1.atl_votes } else { st1.atl_votes.push(0) },
                                    ..st1
                                }
                            } else {
                                st1
                            };
                            let p = st2.parties.len() - 1;
                            let g = st2.parties[p];
                            Ok(HeadingsRead {
                                parties: st2.parties.update(p, (g.0, g.1, g.2, g.3.push(st2.candidates.len()))),
                                candidates: st2.candidates.push((last, Some(p as nat), Some(st2.position))),
                                position: st2.position + 1,
                                ..st2
                            })
                        }
                    } else {
                        Ok(st1)
                    },
                }
            } else if n == 2 && lines[0] == "Ungrouped"@ {
                Ok(HeadingsRead { candidates: st.candidates.push((lines[1], None, None)), ..st })
            } else {
                Ok(st)
            }
        },
    }
}

/// The state after reading the columns from 1 up to (not including) `upto`: the heading of each
/// in the row of headings, and its total in the row of region totals.
pub open spec fn columns_read(sheet: Seq<Vec<String>>, hr: int, tr: int, upto: int) -> Result<HeadingsRead, HeadingsProblem>
    decreases upto,
{
    if upto <= 1 {
        Ok(headings_start())
    } else {
        match columns_read(sheet, hr, tr, upto - 1) {
            Err(e) => Err(e),
            Ok(st) => read_heading(st, cell_text(sheet, hr, upto - 1), cell_text(sheet, tr, upto - 1)),
        }
    }
}

/// Once reading the columns has gone wrong, it stays wrong in the same way.
proof fn lemma_columns_read_err(sheet: Seq<Vec<String>>, hr: int, tr: int, k: int, m: int)
    requires
        1 <= k <= m,
        columns_read(sheet, hr, tr, k) is Err,
    ensures
        columns_read(sheet, hr, tr, m) == columns_read(sheet, hr, tr, k),
    decreases m - k,
{
    if k < m {
        lemma_columns_read_err(sheet, hr, tr, k, m - 1);
    }
}

/// A candidate as read: name, group and position in the group.
pub open spec fn candidate_read(c: Candidate) -> (Seq<char>, Option<nat>, Option<nat>) {
    (
        c.name@,
        match c.party {
            Some(p) => Some(p.0 as nat),
            None => None,
        },
        match c.position {
            Some(x) => Some(x as nat),
            None => None,
        },
    )
}

/// A group as read: column id, name, whether it may be voted for above the line, candidates.
pub open spec fn party_read(p: Party) -> (Seq<char>, Seq<char>, bool, Seq<nat>) {
    (p.column_id@, p.name@, p.atl_allowed, p.candidates@.map_values(|c: CandidateIndex| c.0 as nat))
}

/// The candidates as read.
pub open spec fn candidates_read(s: Seq<Candidate>) -> Seq<(Seq<char>, Option<nat>, Option<nat>)> {
    s.map_values(|c: Candidate| candidate_read(c))
}

/// The groups as read.
pub open spec fn parties_read(s: Seq<Party>) -> Seq<(Seq<char>, Seq<char>, bool, Seq<nat>)> {
    s.map_values(|p: Party| party_read(p))
}

/// The numbers of papers.
pub open spec fn paper_counts(s: Seq<BallotPaperCount>) -> Seq<nat> {
    s.map_values(|b: BallotPaperCount| b.0 as nat)
}

/// The metadata and above the line votes hold what was read from the headings, with the given
/// name, vacancies and source, and nothing else.
pub open spec fn metadata_read(
    m: ElectionMetadata,
    atl: Seq<BallotPaperCount>,
    st: HeadingsRead,
    name: ElectionName,
    page_url: Seq<char>,
    file_name: Seq<char>,
    vacancies: NumberOfCandidates,
) -> bool {
    &&& m.name == name
    &&& candidates_read(m.candidates@) == st.candidates
    &&& parties_read(m.parties@) == st.parties
    &&& paper_counts(atl) == st.atl_votes
    &&& forall|i: int| 0 <= i < m.candidates@.len() ==> (#[trigger] m.candidates@[i]).ec_id is None
    &&& forall|i: int|
        0 <= i < m.parties@.len() ==> (#[trigger] m.parties@[i]).abbreviation is None && m.parties@[i].tickets@.len() == 0
    &&& m.source@.len() == 1
    &&& m.source@[0].url@ == page_url
    &&& m.source@[0].files@.len() == 1
    &&& m.source@[0].files@[0]@ == file_name
    &&& m.source@[0].comments is None
    &&& m.results is None
    &&& m.vacancies == Some(vacancies)
    &&& m.enrolment is None
    &&& m.secondary_vacancies is None
    &&& m.excluded@.len() == 0
    &&& m.tie_resolutions.tie_resolutions@.len() == 0
}

/// The text of a cell, if it is there and not empty.
fn cell(sheet: &CalamineLikeWrapper, row: usize, col: usize) -> (res: Option<&String>)
    ensures
        match cell_text(sheet.contents@, row as int, col as int) {
            Some(t) => res matches Some(s) && s@ == t,
            None => res is None,
        },
{
    if row < sheet.contents.len() && col < sheet.contents[row].len() && !sheet.contents[row][col].as_str().is_empty() {
        Some(&sheet.contents[row][col])
    } else {
        None
    }
}

/// True iff the cell reads "Region Total", ignoring case and surrounding white space.
fn is_region_total(s: &String) -> (res: bool)
    ensures
        res == (uppercase_text(trim(s@)) == "REGION TOTAL"@),
{
    let chars = crate::text::chars_of(s.as_str());
    let t = crate::text::trimmed_range(&chars, 0, chars.len());
    assert(chars@.subrange(0, chars@.len() as int) =~= chars@);
    let t = crate::text::string_of(&t);
    let u = to_uppercase(t.as_str());
    str_equals(u.as_str(), "REGION TOTAL")
}

/// The first row whose first cell starts the headings.
fn find_headings_row(sheet: &CalamineLikeWrapper) -> (res: Option<usize>)
    ensures
        match res {
            Some(r) => headings_row_is(sheet.contents@, r as int),
            None => !has_headings_row(sheet.contents@),
        },
{
    for r in 0..sheet.contents.len()
        invariant
            forall|q: int| 0 <= q < r ==> !is_headings_cell(#[trigger] cell_text(sheet.contents@, q, 0)),
    {
        if let Some(s) = cell(sheet, r, 0) {
            if text_ends_with(s.as_str(), " District") {
                return Some(r);
            }
        }
    }
    None
}

/// The first row whose first cell starts the region totals.
fn find_total_row(sheet: &CalamineLikeWrapper) -> (res: Option<usize>)
    ensures
        match res {
            Some(r) => total_row_is(sheet.contents@, r as int),
            None => !has_total_row(sheet.contents@),
        },
{
    for r in 0..sheet.contents.len()
        invariant
            forall|q: int| 0 <= q < r ==> !is_region_total_cell(#[trigger] cell_text(sheet.contents@, q, 0)),
    {
        if let Some(s) = cell(sheet, r, 0) {
            if is_region_total(s) {
                return Some(r);
            }
        }
    }
    None
}

/// The candidates, groups and above the line votes read so far.
pub struct HeadingsState {
    pub candidates: Vec<Candidate>,
    pub parties: Vec<Party>,
    pub current_party: String,
    pub position: usize,
    pub atl_votes: Vec<BallotPaperCount>,
}

/// What the state holds.
pub open spec fn state_read(s: HeadingsState) -> HeadingsRead {
    HeadingsRead {
        candidates: candidates_read(s.candidates@),
        parties: parties_read(s.parties@),
        current_party: s.current_party@,
        position: s.position as nat,
        atl_votes: paper_counts(s.atl_votes@),
    }
}

/// The candidates have no identifiers, the groups no abbreviations or tickets.
pub open spec fn state_plain(s: HeadingsState) -> bool {
    &&& forall|i: int| 0 <= i < s.candidates@.len() ==> (#[trigger] s.candidates@[i]).ec_id is None
    &&& forall|i: int|
        0 <= i < s.parties@.len() ==> (#[trigger] s.parties@[i]).abbreviation is None && s.parties@[i].tickets@.len() == 0
}

/// The text of a cell, if any.
pub open spec fn opt_text(o: Option<&String>) -> Option<Seq<char>> {
    match o {
        Some(s) => Some(s@),
        None => None,
    }
}

/// Read the heading of one more column, and its region total.
fn read_column(st: &mut HeadingsState, heading: Option<&String>, total: Option<&String>) -> (res: Result<(), VicMetadataError>)
    requires
        old(st).position < usize::MAX,
        old(st).candidates@.len() < usize::MAX,
        old(st).parties@.len() < usize::MAX,
        old(st).atl_votes@.len() < usize::MAX,
        state_plain(*old(st)),
    ensures
        match read_heading(state_read(*old(st)), opt_text(heading), opt_text(total)) {
            Ok(n) => res is Ok && state_read(*final(st)) == n,
            Err(HeadingsProblem::BadAtlVotes) => res matches Err(VicMetadataError::BadAtlVotes),
            Err(HeadingsProblem::MissingAtlVotes(c)) => res matches Err(VicMetadataError::MissingAtlVotes(s)) && s@ == c,
        },
        res is Ok ==> {
            &&& state_plain(*final(st))
            &&& final(st).position <= if old(st).position < 1 { 1 } else { old(st).position } + 1
            &&& final(st).candidates@.len() <= old(st).candidates@.len() + 1
            &&& final(st).parties@.len() <= old(st).parties@.len() + 1
            &&& final(st).atl_votes@.len() <= old(st).atl_votes@.len() + 1
        },
{
    let ghost start = state_read(*st);
    let h = match heading {
        None => {
            return Ok(());
        },
        Some(h) => h,
    };
    let lines = split_text(h.as_str(), '\n');
    let ghost ls = split_on(h@, '\n');
    assert(texts_of(lines@) == ls);
    let n = lines.len();
    assert(ls.len() == n);
    let grouped = n == 3 || (n == 2 && text_starts_with(lines[0].as_str(), "Group "));
    proof {
        if n >= 1 {
            assert(texts_of(lines@)[0] == lines@[0]@);
        }
    }
    if grouped {
        let last = &lines[n - 1];
        assert(texts_of(lines@)[n - 1] == last@);
        let is_atl = str_equals(last.as_str(), "ATL");
        if is_atl {
            if let Some(t) = total {
                match parse_unsigned(t.as_str(), usize::MAX as u64) {
                    Some(v) => {
                        let ghost before = st.atl_votes@;
                        st.atl_votes.push(BallotPaperCount(v as usize));
                        assert(paper_counts(st.atl_votes@) =~= paper_counts(before).push(v as nat));
                    },
                    None => {
                        return Err(VicMetadataError::BadAtlVotes);
                    },
                }
            }
        }
        let ghost st1 = state_read(*st);
        let is_total = str_equals(last.as_str(), "TOTAL");
        if !is_atl && !is_total {
            let party_line = &lines[n - 2];
            assert(texts_of(lines@)[n - 2] == party_line@);
            let had_atl = st.atl_votes.len() == st.parties.len() + 1;
            let new_party = st.parties.len() == 0 || !str_equals(st.current_party.as_str(), party_line.as_str());
            if new_party {
                if !had_atl && st.atl_votes.len() != st.parties.len() {
                    return Err(VicMetadataError::MissingAtlVotes(lines[0].clone()));
                }
                st.current_party = party_line.clone();
                st.position = 1;
                let party_name = if n == 3 {
                    party_line.clone()
                } else {
                    String::new()
                };
                let ghost before = st.parties@;
                st.parties.push(
                    Party {
                        column_id: lines[0].clone(),
                        name: party_name,
                        abbreviation: None,
                        atl_allowed: had_atl,
                        candidates: Vec::new(),
                        tickets: Vec::new(),
                    },
                );
                assert(parties_read(st.parties@) =~= parties_read(before).push(party_read(st.parties@.last())));
                if !had_atl {
                    let ghost before_atl = st.atl_votes@;
                    st.atl_votes.push(BallotPaperCount(0));
                    assert(paper_counts(st.atl_votes@) =~= paper_counts(before_atl).push(0));
                }
                assert(st.parties@.last().candidates@.map_values(|c: CandidateIndex| c.0 as nat) =~= Seq::<nat>::empty());
                assert(party_name@ == if n == 3 { ls[n - 2] } else { Seq::<char>::empty() });
                assert(state_read(*st) =~= HeadingsRead {
                    parties: st1.parties.push(
                        (ls[0], if n == 3 { ls[n - 2] } else { Seq::empty() }, had_atl, Seq::empty()),
                    ),
                    current_party: ls[n - 2],
                    position: 1,
                    atl_votes: if had_atl { st1.atl_votes } else { st1.atl_votes.push(0) },
                    ..st1
                });
            }
            let ghost st2 = state_read(*st);
            let ghost parties2 = st.parties@;
            let mut g = st.parties.pop().unwrap();
            let ghost g0 = g;
            g.candidates.push(CandidateIndex(st.candidates.len()));
            assert(g.candidates@.map_values(|c: CandidateIndex| c.0 as nat) =~= g0.candidates@.map_values(
                |c: CandidateIndex| c.0 as nat,
            ).push(st.candidates@.len() as nat));
            st.parties.push(g);
            assert(st.parties@ =~= parties2.update(parties2.len() - 1, g));
            assert(parties_read(st.parties@) =~= st2.parties.update(
                st2.parties.len() - 1,
                (st2.parties.last().0, st2.parties.last().1, st2.parties.last().2, st2.parties.last().3.push(st2.candidates.len())),
            ));
            let ghost cands2 = st.candidates@;
            st.candidates.push(
                Candidate {
                    name: last.clone(),
                    party: Some(PartyIndex(st.parties.len() - 1)),
                    position: Some(st.position),
                    ec_id: None,
                },
            );
            assert(candidates_read(st.candidates@) =~= candidates_read(cands2).push(candidate_read(st.candidates@.last())));
            st.position = st.position + 1;
        }
        Ok(())
    } else if n == 2 && str_equals(lines[0].as_str(), "Ungrouped") {
        assert(texts_of(lines@)[1] == lines@[1]@);
        let ghost cands = st.candidates@;
        st.candidates.push(Candidate { name: lines[1].clone(), party: None, position: None, ec_id: None });
        assert(candidates_read(st.candidates@) =~= candidates_read(cands).push(candidate_read(st.candidates@.last())));
        Ok(())
    } else {
        Ok(())
    }
}

/// Read the candidates, groups and above the line votes from the spreadsheet of votes received
/// in a region: the row of headings has a column for each candidate (a group's column id, the
/// group's name and the candidate's name, on lines of their own; or "Ungrouped" and the name),
/// with a column "ATL" before a group's candidates whose region total (in the row of region
/// totals) is the group's above the line votes. The name, vacancies and source of the data are
/// as given.
#[verifier::loop_isolation(false)]
pub fn vic_metadata_and_atl_votes(
    sheet: &CalamineLikeWrapper,
    name: ElectionName,
    page_url: &str,
    file_name: &str,
    vacancies: NumberOfCandidates,
) -> (res: Result<(ElectionMetadata, Vec<BallotPaperCount>), VicMetadataError>)
    ensures
        !has_headings_row(sheet.contents@) ==> res matches Err(VicMetadataError::NoHeadingsRow),
        has_headings_row(sheet.contents@) && !has_total_row(sheet.contents@) ==> res matches Err(
            VicMetadataError::NoRegionTotalRow,
        ),
        forall|hr: int, tr: int|
            #[trigger] headings_row_is(sheet.contents@, hr) && #[trigger] total_row_is(sheet.contents@, tr) ==> match columns_read(
                sheet.contents@,
                hr,
                tr,
                max_row_len(sheet.contents@) as int,
            ) {
                Ok(st) => res matches Ok((m, atl)) && metadata_read(m, atl@, st, name, page_url@, file_name@, vacancies),
                Err(HeadingsProblem::BadAtlVotes) => res matches Err(VicMetadataError::BadAtlVotes),
                Err(HeadingsProblem::MissingAtlVotes(c)) => res matches Err(VicMetadataError::MissingAtlVotes(s)) && s@ == c,
            },
{
    let hr = match find_headings_row(sheet) {
        Some(r) => r,
        None => {
            return Err(VicMetadataError::NoHeadingsRow);
        },
    };
    let tr = match find_total_row(sheet) {
        Some(r) => r,
        None => {
            proof {
                assert(is_headings_cell(cell_text(sheet.contents@, hr as int, 0)));
            }
            return Err(VicMetadataError::NoRegionTotalRow);
        },
    };
    let ghost rows = sheet.contents@;
    proof {
        assert forall|a: int, b: int| headings_row_is(rows, a) && total_row_is(rows, b) implies a == hr && b == tr by {
            if a < hr {
                assert(!is_headings_cell(cell_text(rows, a, 0)));
            }
            if hr < a {
                assert(!is_headings_cell(cell_text(rows, hr as int, 0)));
            }
            if b < tr {
                assert(!is_region_total_cell(cell_text(rows, b, 0)));
            }
            if tr < b {
                assert(!is_region_total_cell(cell_text(rows, tr as int, 0)));
            }
        }
    }
    let width = sheet.width();
    let mut st = HeadingsState {
        candidates: Vec::new(),
        parties: Vec::new(),
        current_party: String::new(),
        position: 0,
        atl_votes: Vec::new(),
    };
    assert(state_read(st) =~= headings_start());
    let mut col: usize = 1;
    while col < width
        invariant
            1 <= col,
            col <= width || width == 0,
            width == 0 ==> col == 1,
            width == max_row_len(rows),
            columns_read(rows, hr as int, tr as int, col as int) == Ok::<HeadingsRead, HeadingsProblem>(state_read(st)),
            state_plain(st),
            st.position <= col,
            st.candidates@.len() <= col,
            st.parties@.len() <= col,
            st.atl_votes@.len() <= col,
        decreases width - col,
    {
        let heading = cell(sheet, hr, col);
        let total = cell(sheet, tr, col);
        let r = read_column(&mut st, heading, total);
        match r {
            Err(e) => {
                proof {
                    lemma_columns_read_err(rows, hr as int, tr as int, col + 1, width as int);
                }
                return Err(e);
            },
            Ok(()) => {},
        }
        col = col + 1;
    }
    proof {
        if width == 0 {
            assert(columns_read(rows, hr as int, tr as int, 0) == columns_read(rows, hr as int, tr as int, 1));
        }
    }
    let ghost final_read = state_read(st);
    assert(columns_read(rows, hr as int, tr as int, width as int) == Ok::<HeadingsRead, HeadingsProblem>(final_read));
    let mut files: Vec<String> = Vec::new();
    files.push(file_name.to_owned());
    let mut source: Vec<DataSource> = Vec::new();
    source.push(DataSource { url: page_url.to_owned(), files, comments: None });
    let metadata = ElectionMetadata {
        name,
        candidates: st.candidates,
        parties: st.parties,
        source,
        results: None,
        vacancies: Some(vacancies),
        enrolment: None,
        secondary_vacancies: None,
        excluded: Vec::new(),
        tie_resolutions: TieResolutionsMadeByEC::default(),
    };
    let atl_votes = st.atl_votes;
    assert(metadata_read(metadata, atl_votes@, final_read, metadata.name, page_url@, file_name@, vacancies));
    Ok((metadata, atl_votes))
}

/// The text without any white space.
pub open spec fn without_white(s: Seq<char>) -> Seq<char>
    decreases s.len(),
{
    if s.len() == 0 {
        s
    } else if is_white(s.last()) {
        without_white(s.drop_last())
    } else {
        without_white(s.drop_last()).push(s.last())
    }
}

/// The text without the character `c`.
pub open spec fn without_char(s: Seq<char>, c: char) -> Seq<char>
    decreases s.len(),
{
    if s.len() == 0 {
        s
    } else if s.last() == c {
        without_char(s.drop_last(), c)
    } else {
        without_char(s.drop_last(), c).push(s.last())
    }
}

/// The last candidate with the given name, if any.
pub open spec fn last_candidate_named(cands: Seq<Candidate>, name: Seq<char>) -> Option<nat>
    decreases cands.len(),
{
    if cands.len() == 0 {
        None
    } else if cands.last().name@ == name {
        Some((cands.len() - 1) as nat)
    } else {
        last_candidate_named(cands.drop_last(), name)
    }
}

/// What can go wrong reading the layout of a distribution of preferences spreadsheet.
#[derive(Clone, Debug)]
pub enum VicDopError {
    /// No row of headings (a first cell reading "Count No.").
    NoHeadingsRow,
    /// The number of formal ballot papers is not a number.
    BadFormalBallots,
    /// A heading that is neither a candidate nor a known column.
    UnknownHeading(String),
    NoFormalBallots,
    NoQuota,
}

/// What is wrong with the layout, as found reading it.
pub enum DopProblem {
    BadFormalBallots,
    UnknownHeading(Seq<char>),
    NoFormalBallots,
    NoQuota,
}

/// The layout of the spreadsheet: the quota (papers and the quota as written), the columns of
/// the count details, transfer value, rounding, exhausted papers, the candidates elected, and of
/// each candidate (where there is one), and the row of headings.
pub struct VicDopFormat {
    pub formal_ballots: BallotPaperCount,
    pub quota_text: String,
    pub count_details_column: usize,
    pub tv_column: usize,
    pub rounding_column: Option<usize>,
    pub exhausted_column: Option<usize>,
    pub elected_column: Option<usize>,
    pub column_for_candidate: Vec<Option<usize>>,
    pub table_headings_row: usize,
}

/// The cell starts the row of headings.
pub open spec fn is_dop_headings_cell(c: Option<Seq<char>>) -> bool {
    c matches Some(s) && without_white(s) == "CountNo."@
}

/// `row` is the first row of headings.
pub open spec fn dop_headings_row_is(sheet: Seq<Vec<String>>, row: int) -> bool {
    &&& 0 <= row < sheet.len()
    &&& is_dop_headings_cell(cell_text(sheet, row, 0))
    &&& forall|r: int| 0 <= r < row ==> !is_dop_headings_cell(#[trigger] cell_text(sheet, r, 0))
}

/// Some row is one of headings.
pub open spec fn has_dop_headings_row(sheet: Seq<Vec<String>>) -> bool {
    exists|r: int| 0 <= r < sheet.len() && is_dop_headings_cell(#[trigger] cell_text(sheet, r, 0))
}

/// The number of formal papers and the quota as written, after reading one more row above the
/// headings: a line "description: number".
pub open spec fn read_preamble_row(st: (Option<nat>, Option<Seq<char>>), cell: Option<Seq<char>>) -> Result<
    (Option<nat>, Option<Seq<char>>),
    DopProblem,
> {
    match cell {
        None => Ok(st),
        Some(s) => match split_once_spec(s, ':') {
            None => Ok(st),
            Some((desc, num)) => if trim(desc) == "Formal Ballot Papers included in count"@ {
                match parse_unsigned_spec(trim(num), usize::MAX as nat) {
                    Some(v) => Ok((Some(v), st.1)),
                    None => Err(DopProblem::BadFormalBallots),
                }
            } else if trim(desc) == "Quota"@ {
                Ok((st.0, Some(trim(num))))
            } else {
                Ok(st)
            },
        },
    }
}

/// The state after reading the rows above `upto`.
pub open spec fn preamble_read(sheet: Seq<Vec<String>>, upto: int) -> Result<(Option<nat>, Option<Seq<char>>), DopProblem>
    decreases upto,
{
    if upto <= 0 {
        Ok((None, None))
    } else {
        match preamble_read(sheet, upto - 1) {
            Err(e) => Err(e),
            Ok(st) => read_preamble_row(st, cell_text(sheet, upto - 1, 0)),
        }
    }
}

/// The columns found so far: count details, transfer value, rounding, exhausted, elected, and
/// each candidate's.
pub struct DopColumns {
    pub count_details: nat,
    pub tv: nat,
    pub rounding: Option<nat>,
    pub exhausted: Option<nat>,
    pub elected: Option<nat>,
    pub candidates: Seq<Option<nat>>,
}

/// The columns after reading the heading of column `col`.
pub open spec fn read_dop_heading(st: DopColumns, cell: Option<Seq<char>>, col: nat, cands: Seq<Candidate>) -> Result<DopColumns, DopProblem> {
    match cell {
        None => Ok(st),
        Some(h) => {
            let heading = without_char(trim(h), '\n');
            match last_candidate_named(cands, heading) {
                Some(c) => Ok(DopColumns { candidates: st.candidates.update(c as int, Some(col)), ..st }),
                None => if heading == "Transfer Value"@ {
                    Ok(DopColumns { tv: col, ..st })
                } else if heading == "Count Details"@ {
                    Ok(DopColumns { count_details: col, ..st })
                } else if heading == "Gain/Loss"@ {
                    Ok(DopColumns { rounding: Some(col), ..st })
                } else if heading == "Exhausted"@ {
                    Ok(DopColumns { exhausted: Some(col), ..st })
                } else if heading == "Candidates provisionally elected at this count"@ || heading
                    == "Candidates elected at this count"@ {
                    Ok(DopColumns { elected: Some(col), ..st })
                } else if heading == "TOTAL"@ || heading == ""@ {
                    Ok(st)
                } else {
                    Err(DopProblem::UnknownHeading(heading))
                },
            }
        },
    }
}

/// Nothing found yet: the count details in column 1, the transfer value in column 2.
pub open spec fn dop_columns_start(n: nat) -> DopColumns {
    DopColumns {
        count_details: 1,
        tv: 2,
        rounding: None,
        exhausted: None,
        elected: None,
        candidates: Seq::new(n, |i: int| None),
    }
}

/// The columns after reading the headings of columns 1 up to (not including) `upto`.
pub open spec fn dop_columns_read(sheet: Seq<Vec<String>>, hr: int, cands: Seq<Candidate>, upto: int) -> Result<
    DopColumns,
    DopProblem,
>
    decreases upto,
{
    if upto <= 1 {
        Ok(dop_columns_start(cands.len()))
    } else {
        match dop_columns_read(sheet, hr, cands, upto - 1) {
            Err(e) => Err(e),
            Ok(st) => read_dop_heading(st, cell_text(sheet, hr, upto - 1), (upto - 1) as nat, cands),
        }
    }
}

/// The error returned is the one the problem found calls for.
pub open spec fn reported(p: DopProblem, r: Result<VicDopFormat, VicDopError>) -> bool {
    match p {
        DopProblem::BadFormalBallots => r matches Err(VicDopError::BadFormalBallots),
        DopProblem::UnknownHeading(h) => r matches Err(VicDopError::UnknownHeading(x)) && x@ == h,
        DopProblem::NoFormalBallots => r matches Err(VicDopError::NoFormalBallots),
        DopProblem::NoQuota => r matches Err(VicDopError::NoQuota),
    }
}

/// An optional column number as read.
pub open spec fn opt_col(o: Option<usize>) -> Option<nat> {
    match o {
        Some(c) => Some(c as nat),
        None => None,
    }
}

/// The layout holds the columns and quota read, with the headings in row `hr`.
pub open spec fn dop_format_read(f: VicDopFormat, cols: DopColumns, formal: nat, quota: Seq<char>, hr: int) -> bool {
    &&& f.formal_ballots.0 == formal
    &&& f.quota_text@ == quota
    &&& f.count_details_column == cols.count_details
    &&& f.tv_column == cols.tv
    &&& opt_col(f.rounding_column) == cols.rounding
    &&& opt_col(f.exhausted_column) == cols.exhausted
    &&& opt_col(f.elected_column) == cols.elected
    &&& f.column_for_candidate@.map_values(|o: Option<usize>| opt_col(o)) == cols.candidates
    &&& f.table_headings_row == hr
}

/// The text with leading and trailing white space taken off.
fn trim_text(s: &str) -> (res: String)
    ensures
        res@ == trim(s@),
{
    let chars = crate::text::chars_of(s);
    let t = crate::text::trimmed_range(&chars, 0, chars.len());
    assert(chars@.subrange(0, chars@.len() as int) =~= chars@);
    crate::text::string_of(&t)
}

/// The text without white space.
fn text_without_white(s: &str) -> (res: String)
    ensures
        res@ == without_white(s@),
{
    let chars = crate::text::chars_of(s);
    let mut out: Vec<char> = Vec::new();
    for i in 0..chars.len()
        invariant
            chars@ == s@,
            out@ == without_white(s@.take(i as int)),
    {
        assert(s@.take(i + 1).drop_last() =~= s@.take(i as int));
        if !crate::text::is_whitespace(chars[i]) {
            out.push(chars[i]);
        }
    }
    assert(s@.take(s@.len() as int) =~= s@);
    crate::text::string_of(&out)
}

/// The text without the character `c`.
fn text_without_char(s: &str, c: char) -> (res: String)
    ensures
        res@ == without_char(s@, c),
{
    let chars = crate::text::chars_of(s);
    let mut out: Vec<char> = Vec::new();
    for i in 0..chars.len()
        invariant
            chars@ == s@,
            out@ == without_char(s@.take(i as int), c),
    {
        assert(s@.take(i + 1).drop_last() =~= s@.take(i as int));
        if chars[i] != c {
            out.push(chars[i]);
        }
    }
    assert(s@.take(s@.len() as int) =~= s@);
    crate::text::string_of(&out)
}

/// The last candidate with the given name.
fn find_last_candidate_named(cands: &Vec<Candidate>, name: &str) -> (res: Option<usize>)
    ensures
        opt_col(res) == last_candidate_named(cands@, name@),
        res matches Some(i) ==> i < cands@.len(),
{
    let mut i = cands.len();
    assert(cands@.take(cands@.len() as int) =~= cands@);
    while i > 0
        invariant
            i <= cands@.len(),
            last_candidate_named(cands@, name@) == last_candidate_named(cands@.take(i as int), name@),
        decreases i,
    {
        let ghost t = cands@.take(i as int);
        assert(t.drop_last() =~= cands@.take(i - 1));
        assert(t.last() == cands@[i - 1]);
        if str_equals(cands[i - 1].name.as_str(), name) {
            return Some(i - 1);
        }
        i = i - 1;
    }
    None
}

/// Read the layout of a distribution of preferences spreadsheet: above the row of headings (a
/// first cell "Count No."), the lines "Formal Ballot Papers included in count: n" and
/// "Quota: q" (the last of each counts); in the row of headings, the column of each candidate
/// (by name) and of the count details, transfer value, rounding ("Gain/Loss"), exhausted papers
/// and candidates elected.
#[verifier::loop_isolation(false)]
pub fn vic_dop_format(sheet: &CalamineLikeWrapper, metadata: &ElectionMetadata) -> (res: Result<VicDopFormat, VicDopError>)
    ensures
        ({
            let rows = sheet.contents@;
            let cands = metadata.candidates@;
            &&& !has_dop_headings_row(rows) ==> match preamble_read(rows, rows.len() as int) {
                Err(p) => reported(p, res),
                Ok(_) => res matches Err(VicDopError::NoHeadingsRow),
            }
            &&& forall|hr: int|
                #[trigger] dop_headings_row_is(rows, hr) ==> match preamble_read(rows, hr) {
                    Err(p) => reported(p, res),
                    Ok((formal, quota)) => match dop_columns_read(rows, hr, cands, max_row_len(rows) as int) {
                        Err(p) => reported(p, res),
                        Ok(cols) => match (formal, quota) {
                            (None, _) => res matches Err(VicDopError::NoFormalBallots),
                            (Some(_), None) => res matches Err(VicDopError::NoQuota),
                            (Some(f), Some(q)) => res matches Ok(fmt) && dop_format_read(fmt, cols, f, q, hr),
                        },
                    },
                }
        }),
{
    let ghost rows = sheet.contents@;
    let mut formal: Option<usize> = None;
    let mut quota: Option<String> = None;
    let mut row: usize = 0;
    let height = sheet.contents.len();
    let mut found = false;
    while row < height
        invariant
            row <= height,
            height == rows.len(),
            forall|r: int| 0 <= r < row ==> !is_dop_headings_cell(#[trigger] cell_text(rows, r, 0)),
            preamble_read(rows, row as int) == Ok::<(Option<nat>, Option<Seq<char>>), DopProblem>(
                (opt_col(formal), match quota { Some(q) => Some(q@), None => None }),
            ),
        decreases height - row,
    {
        let c = cell(sheet, row, 0);
        match c {
            Some(s) => {
                let squeezed = text_without_white(s.as_str());
                if str_equals(squeezed.as_str(), "CountNo.") {
                    break;
                }
                match crate::text::split_once_text(s.as_str(), ':') {
                    Some((desc, num)) => {
                        let d = trim_text(desc.as_str());
                        if str_equals(d.as_str(), "Formal Ballot Papers included in count") {
                            let t = trim_text(num.as_str());
                            match parse_unsigned(t.as_str(), usize::MAX as u64) {
                                Some(v) => {
                                    formal = Some(v as usize);
                                },
                                None => {
                                    proof {
                                        lemma_preamble_err(rows, row as int + 1, rows.len() as int);
                                        assert forall|a: int| #[trigger] dop_headings_row_is(rows, a) implies preamble_read(rows, a)
                                            == preamble_read(rows, row as int + 1) by {
                                            if a <= row {
                                                if a < row {
                                                    assert(!is_dop_headings_cell(cell_text(rows, a, 0)));
                                                }
                                            }
                                            lemma_preamble_err(rows, row as int + 1, a);
                                        }
                                    }
                                    return Err(VicDopError::BadFormalBallots);
                                },
                            }
                        } else if str_equals(d.as_str(), "Quota") {
                            quota = Some(trim_text(num.as_str()));
                        }
                    },
                    None => {},
                }
            },
            None => {},
        }
        row = row + 1;
    }
    if row == height {
        return Err(VicDopError::NoHeadingsRow);
    }
    let hr = row;
    proof {
        assert forall|a: int| dop_headings_row_is(rows, a) implies a == hr by {
            if a < hr {
                assert(!is_dop_headings_cell(cell_text(rows, a, 0)));
            }
            if hr < a {
                assert(!is_dop_headings_cell(cell_text(rows, hr as int, 0)));
            }
        }
    }
    let n = metadata.candidates.len();
    let mut count_details_column: usize = 1;
    let mut tv_column: usize = 2;
    let mut rounding_column: Option<usize> = None;
    let mut exhausted_column: Option<usize> = None;
    let mut elected_column: Option<usize> = None;
    let mut column_for_candidate: Vec<Option<usize>> = Vec::new();
    for i in 0..n
        invariant
            column_for_candidate@.len() == i,
            forall|k: int| 0 <= k < i ==> (#[trigger] column_for_candidate@[k]) is None,
    {
        column_for_candidate.push(None);
    }
    let ghost cands = metadata.candidates@;
    let width = sheet.width();
    let mut col: usize = 1;
    assert(column_for_candidate@.map_values(|o: Option<usize>| opt_col(o)) =~= dop_columns_start(n as nat).candidates);
    while col < width
        invariant
            1 <= col,
            col <= width || width == 0,
            width == 0 ==> col == 1,
            width == max_row_len(rows),
            column_for_candidate@.len() == n,
            dop_columns_read(rows, hr as int, cands, col as int) == Ok::<DopColumns, DopProblem>(
                DopColumns {
                    count_details: count_details_column as nat,
                    tv: tv_column as nat,
                    rounding: opt_col(rounding_column),
                    exhausted: opt_col(exhausted_column),
                    elected: opt_col(elected_column),
                    candidates: column_for_candidate@.map_values(|o: Option<usize>| opt_col(o)),
                },
            ),
        decreases width - col,
    {
        match cell(sheet, hr, col) {
            None => {},
            Some(h) => {
                let t = trim_text(h.as_str());
                let heading = text_without_char(t.as_str(), '\n');
                match find_last_candidate_named(&metadata.candidates, heading.as_str()) {
                    Some(c) => {
                        let ghost before = column_for_candidate@;
                        column_for_candidate.set(c, Some(col));
                        assert(column_for_candidate@.map_values(|o: Option<usize>| opt_col(o)) =~= before.map_values(
                            |o: Option<usize>| opt_col(o),
                        ).update(c as int, Some(col as nat)));
                    },
                    None => {
                        if str_equals(heading.as_str(), "Transfer Value") {
                            tv_column = col;
                        } else if str_equals(heading.as_str(), "Count Details") {
                            count_details_column = col;
                        } else if str_equals(heading.as_str(), "Gain/Loss") {
                            rounding_column = Some(col);
                        } else if str_equals(heading.as_str(), "Exhausted") {
                            exhausted_column = Some(col);
                        } else if str_equals(heading.as_str(), "Candidates provisionally elected at this count") || str_equals(
                            heading.as_str(),
                            "Candidates elected at this count",
                        ) {
                            elected_column = Some(col);
                        } else if str_equals(heading.as_str(), "TOTAL") || str_equals(heading.as_str(), "") {
                        } else {
                            proof {
                                lemma_dop_columns_err(rows, hr as int, cands, col as int + 1, width as int);
                            }
                            return Err(VicDopError::UnknownHeading(heading));
                        }
                    },
                }
            },
        }
        col = col + 1;
    }
    proof {
        if width == 0 {
            assert(dop_columns_read(rows, hr as int, cands, 0) == dop_columns_read(rows, hr as int, cands, 1));
        }
    }
    let formal_ballots = match formal {
        Some(f) => f,
        None => {
            return Err(VicDopError::NoFormalBallots);
        },
    };
    let quota_text = match quota {
        Some(q) => q,
        None => {
            return Err(VicDopError::NoQuota);
        },
    };
    Ok(
        VicDopFormat {
            formal_ballots: BallotPaperCount(formal_ballots),
            quota_text,
            count_details_column,
            tv_column,
            rounding_column,
            exhausted_column,
            elected_column,
            column_for_candidate,
            table_headings_row: hr,
        },
    )
}

/// Once reading the rows above the headings has gone wrong, it stays wrong in the same way.
proof fn lemma_preamble_err(sheet: Seq<Vec<String>>, k: int, m: int)
    requires
        0 <= k <= m,
        preamble_read(sheet, k) is Err,
    ensures
        preamble_read(sheet, m) == preamble_read(sheet, k),
    decreases m - k,
{
    if k < m {
        lemma_preamble_err(sheet, k, m - 1);
    }
}

/// Once reading the headings has gone wrong, it stays wrong in the same way.
proof fn lemma_dop_columns_err(sheet: Seq<Vec<String>>, hr: int, cands: Seq<Candidate>, k: int, m: int)
    requires
        1 <= k <= m,
        dop_columns_read(sheet, hr, cands, k) is Err,
    ensures
        dop_columns_read(sheet, hr, cands, m) == dop_columns_read(sheet, hr, cands, k),
    decreases m - k,
{
    if k < m {
        lemma_dop_columns_err(sheet, hr, cands, k, m - 1);
    }
}

} // verus!
