//! Simple numbers describing the votes of an election.

use vstd::prelude::*;
use crate::ballot_metadata::DataSource;
use crate::election_data::{ElectionData, atl_counts, btl_counts, single_atl_counts, total};

verus! {

/// Simple numbers describing the votes of an election.
#[derive(Debug, Clone)]
pub struct SimpleStatistics {
    pub num_satl: usize,
    pub num_atl: usize,
    pub num_unique_atl: usize,
    pub num_btl: usize,
    pub num_unique_btl: usize,
    pub num_candidates: usize,
    pub num_formal: usize,
    pub num_informal: usize,
    pub uses_group_voting_tickets: bool,
    pub download_locations: Vec<DataSource>,
}

/// Two descriptions of where data came from say the same.
pub open spec fn same_source(a: DataSource, b: DataSource) -> bool {
    &&& a.url@ == b.url@
    &&& a.files@ == b.files@
    &&& a.comments == b.comments
}

/// A copy of a list of strings.
fn copy_strings(v: &Vec<String>) -> (res: Vec<String>)
    ensures
        res@ == v@,
{
    let mut res: Vec<String> = Vec::new();
    for i in 0..v.len()
        invariant
            res@ == v@.take(i as int),
    {
        res.push(v[i].clone());
        assert(v@.take(i + 1) =~= v@.take(i as int).push(v@[i as int]));
    }
    assert(v@.take(v@.len() as int) =~= v@);
    res
}

/// A copy of a description of where data came from.
fn copy_source(s: &DataSource) -> (res: DataSource)
    ensures
        same_source(res, *s),
{
    let comments = match &s.comments {
        Some(c) => Some(c.clone()),
        None => None,
    };
    DataSource { url: s.url.clone(), files: copy_strings(&s.files), comments }
}

impl SimpleStatistics {
    /// The numbers for an election.
    pub fn new(data: &ElectionData) -> (res: Self)
        requires
            total(atl_counts(data.atl@)) + total(btl_counts(data.btl@)) <= usize::MAX,
        ensures
            res.num_satl == total(single_atl_counts(data.atl@)),
            res.num_atl == total(atl_counts(data.atl@)),
            res.num_unique_atl == data.atl@.len(),
            res.num_btl == total(btl_counts(data.btl@)),
            res.num_unique_btl == data.btl@.len(),
            res.num_candidates == data.metadata.candidates@.len(),
            res.num_formal == total(atl_counts(data.atl@)) + total(btl_counts(data.btl@)),
            res.num_informal == data.informal,
            res.uses_group_voting_tickets == exists|p: int|
                0 <= p < data.metadata.parties@.len() && (#[trigger] data.metadata.parties@[p]).tickets@.len() > 0,
            res.download_locations@.len() == data.metadata.source@.len(),
            forall|i: int| 0 <= i < res.download_locations@.len() ==> same_source(
                #[trigger] res.download_locations@[i],
                data.metadata.source@[i],
            ),
    {
        let mut uses_tickets = false;
        for p in 0..data.metadata.parties.len()
            invariant
                uses_tickets == exists|q: int| 0 <= q < p && (#[trigger] data.metadata.parties@[q]).tickets@.len() > 0,
        {
            if data.metadata.parties[p].tickets.len() > 0 {
                uses_tickets = true;
            }
        }
        let mut download_locations: Vec<DataSource> = Vec::new();
        for i in 0..data.metadata.source.len()
            invariant
                download_locations@.len() == i,
                forall|k: int| 0 <= k < i ==> same_source(#[trigger] download_locations@[k], data.metadata.source@[k]),
        {
            download_locations.push(copy_source(&data.metadata.source[i]));
        }
        SimpleStatistics {
            num_satl: data.num_satl(),
            num_atl: data.num_atl(),
            num_unique_atl: data.atl.len(),
            num_btl: data.num_btl(),
            num_unique_btl: data.btl.len(),
            num_candidates: data.metadata.candidates.len(),
            num_formal: data.num_atl() + data.num_btl(),
            num_informal: data.informal,
            uses_group_voting_tickets: uses_tickets,
            download_locations,
        }
    }
}

} // verus!
