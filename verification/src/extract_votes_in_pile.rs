//! Requests to extract particular votes from a count.

use vstd::prelude::*;
use crate::ballot_metadata::CandidateIndex;
use crate::text::{chars_of, string_of, parse_unsigned, parse_unsigned_spec};

verus! {

/// What votes to extract.
#[derive(Debug, Clone, Copy, PartialEq, Eq, Structural)]
pub enum WhatToExtract {
    /// The votes used to elect a particular candidate, as defined in Schedule 4, part 4.3 Casual
    /// Vacancies in _Electoral Act 1992_
    ACTVotesUsedToElectCandidate(CandidateIndex),
}

/// Why an extraction request could not be read.
#[derive(Debug, Clone, Copy, PartialEq, Eq, Structural)]
pub enum ExtractError {
    /// unknown thing to extract
    UnknownThingToExtract,
    /// could not parse as a candidate number
    CouldNotParseCandidateNumber,
    /// unknown thing to do with extracted votes
    UnknownThingToDo,
    /// an extraction request should be what to extract, followed by a semicolon, followed by what
    /// to do with it, and there was no semicolon
    ExpectingSemicolonInExtractionRequest,
}

/// The prefix naming the votes used to elect a candidate.
pub open spec fn act_prefix() -> Seq<char> {
    seq!['U', 's', 'e', 'd', 'T', 'o', 'E', 'l', 'e', 'c', 't', 'A', 'C', 'T', ':']
}

/// What a request text asks for.
pub open spec fn what_to_extract_spec(s: Seq<char>) -> Result<WhatToExtract, ExtractError> {
    let p = act_prefix();
    if s.len() >= p.len() && s.take(p.len() as int) == p {
        match parse_unsigned_spec(s.skip(p.len() as int), usize::MAX as nat) {
            Some(c) => Ok(WhatToExtract::ACTVotesUsedToElectCandidate(CandidateIndex(c as usize))),
            None => Err(ExtractError::CouldNotParseCandidateNumber),
        }
    } else {
        Err(ExtractError::UnknownThingToExtract)
    }
}

impl WhatToExtract {
    /// Read "UsedToElectACT:" followed by a candidate number.
    pub fn from_text(s: &str) -> (res: Result<Self, ExtractError>)
        ensures
            res == what_to_extract_spec(s@),
    {
        let chars = chars_of(s);
        let prefix: [char; 15] = ['U', 's', 'e', 'd', 'T', 'o', 'E', 'l', 'e', 'c', 't', 'A', 'C', 'T', ':'];
        assert(prefix@ =~= act_prefix());
        if chars.len() < 15 {
            return Err(ExtractError::UnknownThingToExtract);
        }
        for i in 0..15
            invariant
                chars@ == s@,
                chars@.len() >= 15,
                prefix@ == act_prefix(),
                forall|j: int| 0 <= j < i ==> chars@[j] == prefix@[j],
        {
            if chars[i] != prefix[i] {
                assert(s@.take(15)[i as int] != act_prefix()[i as int]);
                return Err(ExtractError::UnknownThingToExtract);
            }
        }
        assert(s@.take(15) =~= act_prefix());
        let mut rest: Vec<char> = Vec::new();
        for i in 15..chars.len()
            invariant
                chars@ == s@,
                rest@ == chars@.subrange(15, i as int),
        {
            rest.push(chars[i]);
            assert(chars@.subrange(15, i + 1) =~= chars@.subrange(15, i as int).push(chars@[i as int]));
        }
        let rest_text = string_of(&rest);
        assert(rest_text@ =~= s@.skip(15));
        match parse_unsigned(rest_text.as_str(), usize::MAX as u64) {
            Some(c) => Ok(WhatToExtract::ACTVotesUsedToElectCandidate(CandidateIndex(c as usize))),
            None => Err(ExtractError::CouldNotParseCandidateNumber),
        }
    }
}

} // verus!
