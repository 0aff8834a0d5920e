//! Helpers shared by the parsers of electoral commissions' files: building the list of parties
//! from groups, spreadsheet cells, and the report of a missing file.

use vstd::prelude::*;
use crate::ballot_metadata::{Candidate, Party, CandidateIndex, PartyIndex};
use crate::text::append_str;

verus! {

/// The candidates and groups read so far.
pub struct CandidateAndGroupInformationBuilder {
    pub candidates: Vec<Candidate>,
    pub parties: Vec<GroupBuilder>,
}

/// A group (party) as read from a file.
pub struct GroupBuilder {
    pub name: String,
    /// e.g. "A" or "UG"
    pub group_id: String,
    pub abbreviation: Option<String>,
    /// the dummy candidate id for the ticket vote.
    pub ticket_id: Option<String>,
    /// a list of tickets
    pub tickets: Vec<Vec<CandidateIndex>>,
}

/// The indices of the candidates (among the first `n`) in party `p`, in order.
pub open spec fn members(cands: Seq<Candidate>, p: int, n: int) -> Seq<CandidateIndex>
    decreases n,
{
    if n <= 0 {
        Seq::empty()
    } else if cands[n - 1].party == Some(PartyIndex(p as usize)) {
        members(cands, p, n - 1).push(CandidateIndex((n - 1) as usize))
    } else {
        members(cands, p, n - 1)
    }
}

/// Every candidate's party exists, and its position is its place among the party's candidates.
pub open spec fn positions_consistent(cands: Seq<Candidate>, num_parties: int) -> bool {
    forall|i: int|
        0 <= i < cands.len() ==> match (#[trigger] cands[i]).party {
            Some(p) => p.0 < num_parties && cands[i].position == Some(members(cands, p.0 as int, i + 1).len() as usize),
            None => true,
        }
}

/// The party a group becomes, with its candidates.
pub open spec fn party_from_group(g: GroupBuilder, p: Party, candidates: Seq<CandidateIndex>) -> bool {
    &&& p.column_id@ == g.group_id@
    &&& p.name@ == g.name@
    &&& (p.abbreviation is None <==> g.abbreviation is None)
    &&& (p.abbreviation matches Some(a) ==> g.abbreviation matches Some(b) && a@ == b@)
    &&& p.atl_allowed == (g.ticket_id is Some)
    &&& p.candidates@ == candidates
    &&& p.tickets@.len() == g.tickets@.len()
    &&& forall|i: int| 0 <= i < p.tickets@.len() ==> (#[trigger] p.tickets@[i])@ == g.tickets@[i]@
}

/// A copy of a list of tickets.
fn copy_tickets(t: &Vec<Vec<CandidateIndex>>) -> (res: Vec<Vec<CandidateIndex>>)
    ensures
        res@.len() == t@.len(),
        forall|i: int| 0 <= i < t@.len() ==> (#[trigger] res@[i])@ == t@[i]@,
{
    let mut res: Vec<Vec<CandidateIndex>> = Vec::new();
    for i in 0..t.len()
        invariant
            res@.len() == i,
            forall|j: int| 0 <= j < i ==> (#[trigger] res@[j])@ == t@[j]@,
    {
        let mut ticket: Vec<CandidateIndex> = Vec::new();
        let source = &t[i];
        for k in 0..source.len()
            invariant
                i < t@.len(),
                *source == t@[i as int],
                ticket@ == t@[i as int]@.take(k as int),
        {
            ticket.push(source[k]);
            assert(t@[i as int]@.take(k + 1) =~= t@[i as int]@.take(k as int).push(t@[i as int]@[k as int]));
        }
        assert(t@[i as int]@.take(t@[i as int]@.len() as int) =~= t@[i as int]@);
        res.push(ticket);
    }
    res
}

impl CandidateAndGroupInformationBuilder {
    /// The parties, each with its candidates in ballot order.
    #[verifier::loop_isolation(false)]
    pub fn extract_parties(&self) -> (res: Vec<Party>)
        requires
            positions_consistent(self.candidates@, self.parties@.len() as int),
        ensures
            res@.len() == self.parties@.len(),
            forall|k: int|
                0 <= k < res@.len() ==> party_from_group(
                    self.parties@[k],
                    #[trigger] res@[k],
                    members(self.candidates@, k, self.candidates@.len() as int),
                ),
    {
        let mut res: Vec<Party> = Vec::new();
        for k in 0..self.parties.len()
            invariant
                res@.len() == k,
                forall|j: int| 0 <= j < k ==> party_from_group(self.parties@[j], #[trigger] res@[j], Seq::empty()),
        {
            let g = &self.parties[k];
            let abbreviation = match &g.abbreviation {
                Some(a) => Some(a.clone()),
                None => None,
            };
            res.push(
                Party {
                    column_id: g.group_id.clone(),
                    name: g.name.clone(),
                    abbreviation,
                    atl_allowed: g.ticket_id.is_some(),
                    candidates: Vec::new(),
                    tickets: copy_tickets(&g.tickets),
                },
            );
        }
        for candidate_index in 0..self.candidates.len()
            invariant
                res@.len() == self.parties@.len(),
                forall|j: int|
                    0 <= j < res@.len() ==> party_from_group(
                        self.parties@[j],
                        #[trigger] res@[j],
                        members(self.candidates@, j, candidate_index as int),
                    ),
        {
            let candidate = &self.candidates[candidate_index];
            assert(self.candidates@[candidate_index as int] == *candidate);
            if let Some(party) = candidate.party {
                let ghost before = res@;
                let mut p = res.remove(party.0);
                p.candidates.push(CandidateIndex(candidate_index));
                res.insert(party.0, p);
                assert forall|j: int| 0 <= j < res@.len() implies party_from_group(
                    self.parties@[j],
                    #[trigger] res@[j],
                    members(self.candidates@, j, candidate_index + 1),
                ) by {
                    if j != party.0 {
                        assert(res@[j] == before[j]);
                        assert(party != PartyIndex(j as usize));
                    }
                }
            }
        }
        res
    }

    /// The index of the group with the given id, if any.
    pub fn group_from_group_id(&self, group_id: &str) -> (res: Option<PartyIndex>)
        ensures
            match res {
                Some(p) => p.0 < self.parties@.len() && self.parties@[p.0 as int].group_id@ == group_id@ && forall|j: int|
                    0 <= j < p.0 ==> (#[trigger] self.parties@[j]).group_id@ != group_id@,
                None => forall|j: int| 0 <= j < self.parties@.len() ==> (#[trigger] self.parties@[j]).group_id@ != group_id@,
            },
    {
        for i in 0..self.parties.len()
            invariant
                forall|j: int| 0 <= j < i ==> (#[trigger] self.parties@[j]).group_id@ != group_id@,
        {
            if crate::text::str_equals(self.parties[i].group_id.as_str(), group_id) {
                return Some(PartyIndex(i));
            }
        }
        None
    }
}

/// A file that could not be found, and where to get it.
#[derive(Debug, Clone)]
pub struct MissingFile {
    pub file_name: String,
    pub where_to_get: String,
    pub where_to_get_is_exact_url: bool,
}

/// A file that could not be found under any of its names.
#[derive(Debug, Clone)]
pub struct MissingAlternateNamedFiles {
    pub alternates: Vec<MissingFile>,
}

/// The message for a missing file.
pub open spec fn missing_file_message(m: MissingFile) -> Seq<char> {
    if m.where_to_get_is_exact_url {
        "Missing file "@ + m.file_name@ + " from URL "@ + m.where_to_get@ + " : try wget -O "@ + m.file_name@ + " "@
            + m.where_to_get@
    } else {
        "Missing file "@ + m.file_name@ + " look in "@ + m.where_to_get@
    }
}

/// The message listing the alternate names of a missing file, after the first `n`.
pub open spec fn alternates_message(alts: Seq<MissingFile>) -> Seq<char>
    decreases alts.len(),
{
    if alts.len() == 0 {
        "There is a missing file which may have alternate names."@
    } else {
        alternates_message(alts.drop_last()) + " May be file "@ + alts.last().file_name@ + " from "@ + alts.last().where_to_get@
    }
}

impl MissingFile {
    /// What is missing and how to get it.
    pub fn to_text(&self) -> (res: String)
        ensures
            res@ == missing_file_message(*self),
    {
        let mut res = String::new();
        if self.where_to_get_is_exact_url {
            append_str(&mut res, "Missing file ");
            append_str(&mut res, self.file_name.as_str());
            append_str(&mut res, " from URL ");
            append_str(&mut res, self.where_to_get.as_str());
            append_str(&mut res, " : try wget -O ");
            append_str(&mut res, self.file_name.as_str());
            append_str(&mut res, " ");
            append_str(&mut res, self.where_to_get.as_str());
        } else {
            append_str(&mut res, "Missing file ");
            append_str(&mut res, self.file_name.as_str());
            append_str(&mut res, " look in ");
            append_str(&mut res, self.where_to_get.as_str());
        }
        res
    }
}

impl MissingAlternateNamedFiles {
    /// The missing file and each of its possible names.
    pub fn to_text(&self) -> (res: String)
        ensures
            res@ == alternates_message(self.alternates@),
    {
        let mut res = String::new();
        append_str(&mut res, "There is a missing file which may have alternate names.");
        for i in 0..self.alternates.len()
            invariant
                res@ == alternates_message(self.alternates@.take(i as int)),
        {
            assert(self.alternates@.take(i + 1).drop_last() =~= self.alternates@.take(i as int));
            append_str(&mut res, " May be file ");
            append_str(&mut res, self.alternates[i].file_name.as_str());
            append_str(&mut res, " from ");
            append_str(&mut res, self.alternates[i].where_to_get.as_str());
        }
        assert(self.alternates@.take(self.alternates@.len() as int) =~= self.alternates@);
        res
    }
}

/// A spreadsheet as rows of text cells.
pub struct CalamineLikeWrapper {
    pub contents: Vec<Vec<String>>,
}

/// The text of one cell.
#[derive(Debug, Clone)]
pub struct CalamineLikeCellWrapper {
    pub contents: String,
}

/// The length of the longest row (0 if none).
pub open spec fn max_row_len(rows: Seq<Vec<String>>) -> nat
    decreases rows.len(),
{
    if rows.len() == 0 {
        0
    } else {
        let m = max_row_len(rows.drop_last());
        let l = rows.last()@.len();
        if l > m {
            l
        } else {
            m
        }
    }
}

impl CalamineLikeWrapper {
    /// The number of rows.
    pub fn height(&self) -> (res: usize)
        ensures
            res == self.contents@.len(),
    {
        self.contents.len()
    }

    /// The length of the longest row.
    pub fn width(&self) -> (res: usize)
        ensures
            res == max_row_len(self.contents@),
    {
        let mut res: usize = 0;
        for i in 0..self.contents.len()
            invariant
                res == max_row_len(self.contents@.take(i as int)),
        {
            assert(self.contents@.take(i + 1).drop_last() =~= self.contents@.take(i as int));
            let l = self.contents[i].len();
            if l > res {
                res = l;
            }
        }
        assert(self.contents@.take(self.contents@.len() as int) =~= self.contents@);
        res
    }

    /// The cell at (row, column), if there is a non-empty one.
    pub fn get_value(&self, coords: (u32, u32)) -> (res: Option<CalamineLikeCellWrapper>)
        ensures
            ({
                let (row, col) = coords;
                if row < self.contents@.len() && col < self.contents@[row as int]@.len()
                    && self.contents@[row as int]@[col as int]@.len() > 0 {
                    res matches Some(c) && c.contents@ == self.contents@[row as int]@[col as int]@
                } else {
                    res is None
                }
            }),
    {
        let (row, col) = coords;
        let row = row as usize;
        let col = col as usize;
        if row < self.contents.len() && col < self.contents[row].len() {
            let contents = &self.contents[row][col];
            if contents.as_str().is_empty() {
                None
            } else {
                Some(CalamineLikeCellWrapper { contents: contents.clone() })
            }
        } else {
            None
        }
    }
}

impl CalamineLikeCellWrapper {
    /// The text of the cell.
    pub fn get_string(&self) -> (res: Option<String>)
        ensures
            res matches Some(s) && s@ == self.contents@,
    {
        Some(self.contents.clone())
    }
}

} // verus!

verus! {

/// The text that decoding the bytes as Windows-1252 gives (with the WHATWG "decode": a byte
/// order mark, if any, selects its own encoding and is dropped; malformed sequences become the
/// replacement character).
pub uninterp spec fn windows_1252_text(bytes: Seq<u8>) -> Seq<char>;

/// Whether decoding the bytes as Windows-1252 meets malformed sequences.
pub uninterp spec fn windows_1252_has_errors(bytes: Seq<u8>) -> bool;

/// Every byte is ASCII.
pub open spec fn all_ascii(bytes: Seq<u8>) -> bool {
    forall|i: int| 0 <= i < bytes.len() ==> #[trigger] bytes[i] < 128
}

/// The characters of ASCII bytes.
pub open spec fn ascii_chars(bytes: Seq<u8>) -> Seq<char> {
    bytes.map_values(|b: u8| b as char)
}

/// `encoding_rs::WINDOWS_1252.decode`: the decoded text and whether there were malformed
/// sequences, both named as functions of the bytes. Its documentation says that an
/// ASCII-compatible encoding borrows ASCII-only input as it is, so such input decodes to its
/// own characters without errors. It panics only when the size of the output buffer overflows
/// `usize`, which the bound on the length rules out.
#[verifier::external_body]
fn decode_windows_1252(bytes: &[u8]) -> (res: (String, bool))
    requires
        bytes@.len() <= usize::MAX / 4,
    ensures
        res.0@ == windows_1252_text(bytes@),
        res.1 == windows_1252_has_errors(bytes@),
        all_ascii(bytes@) ==> !res.1 && res.0@ == ascii_chars(bytes@),
{
    let (cow, _, had_errors) = encoding_rs::WINDOWS_1252.decode(bytes);
    (cow.to_string(), had_errors)
}

/// Text that could not be decoded.
#[derive(Debug, Clone, Copy, PartialEq, Eq)]
pub enum DecodingError {
    /// Decoding met malformed sequences.
    HadErrors,
}

/// The text of bytes in the Windows-1252 character encoding (as some electoral commissions
/// publish their files), or an error if they hold malformed sequences.
pub fn string_from_windows_1252(bytes: &[u8]) -> (res: Result<String, DecodingError>)
    requires
        bytes@.len() <= usize::MAX / 4,
    ensures
        res is Ok <==> !windows_1252_has_errors(bytes@),
        res matches Ok(s) ==> s@ == windows_1252_text(bytes@),
        all_ascii(bytes@) ==> res is Ok,
        res matches Ok(s) ==> (all_ascii(bytes@) ==> s@ == ascii_chars(bytes@)),
{
    let (text, had_errors) = decode_windows_1252(bytes);
    if had_errors {
        Err(DecodingError::HadErrors)
    } else {
        Ok(text)
    }
}

} // verus!
