use stv::ballot_metadata::{Candidate, CandidateIndex, ElectionMetadata, ElectionName};
use stv::ballot_paper::{VoteSource, BTL};
use stv::ballot_pile::{BallotPaperCount, DoNotSplitByCountNumber, PartiallyDistributedVote};
use stv::distribution_of_preferences_transcript::ReasonForCount;
use stv::election_data::ElectionData;
use stv::compare_rules::alternate_rule_differences;
use stv::official_dop_transcript::{DifferenceBetweenOfficialDoPAndComputed, OfficialDOPForOneCount, OfficialDistributionOfPreferencesTranscript};
use stv::parse_util::CalamineLikeWrapper;
use stv::ballot_metadata::{NumberOfCandidates, PartyIndex};
use stv::vic_data::{vic_dop_format, vic_metadata_and_atl_votes, vic_votes_from_records, VicDopError, VicMetadataError};
use stv::preference_distribution::{
    distribute_preferences, PreferenceDistributionRules, PreferenceDistributor, WhenToDoElectCandidateClauseChecking,
};
use stv::tie_resolution::{MethodOfTieResolution, TieResolutionGranularityNeeded, TieResolutionUsage, TieResolutionsMadeByEC};
use stv::transfer_value::TransferValue;

struct SimpleRules;

impl PreferenceDistributionRules for SimpleRules {
    type Tally = usize;
    type SplitByNumber = DoNotSplitByCountNumber;

    fn make_transfer_value(surplus: usize, ballots: BallotPaperCount) -> TransferValue {
        TransferValue::from_surplus(surplus, ballots)
    }

    fn use_transfer_value(transfer_value: &TransferValue, ballots: BallotPaperCount) -> usize {
        transfer_value.mul_rounding_down(ballots)
    }

    fn resolve_ties_elected_one_of_last_two() -> MethodOfTieResolution {
        MethodOfTieResolution::RequireHistoricalCountsToBeAllDifferent
    }

    fn resolve_ties_elected_by_quota() -> MethodOfTieResolution {
        MethodOfTieResolution::RequireHistoricalCountsToBeAllDifferent
    }

    fn resolve_ties_elected_all_remaining() -> MethodOfTieResolution {
        MethodOfTieResolution::RequireHistoricalCountsToBeAllDifferent
    }

    fn resolve_ties_choose_lowest_candidate_for_exclusion() -> MethodOfTieResolution {
        MethodOfTieResolution::RequireHistoricalCountsToBeAllDifferent
    }

    fn finish_all_counts_in_elimination_when_all_elected() -> bool {
        false
    }

    fn finish_all_surplus_distributions_when_all_elected() -> bool {
        false
    }

    fn when_to_check_if_just_two_standing_for_shortcut_election() -> WhenToDoElectCandidateClauseChecking {
        WhenToDoElectCandidateClauseChecking::AfterCheckingQuotaIfNoUndistributedSurplusExists
    }

    fn when_to_check_if_all_remaining_should_get_elected() -> WhenToDoElectCandidateClauseChecking {
        WhenToDoElectCandidateClauseChecking::AfterCheckingQuotaIfNoUndistributedSurplusExists
    }

    fn name() -> String {
        "Simple".to_string()
    }
}

fn election(num_candidates: usize) -> ElectionData {
    let candidates = (0..num_candidates)
        .map(|i| Candidate { name: format!("Candidate {}", i), party: None, position: None, ec_id: None })
        .collect();
    ElectionData {
        metadata: ElectionMetadata {
            name: ElectionName {
                year: "2024".to_string(),
                authority: "Test".to_string(),
                name: "Test".to_string(),
                electorate: "Test".to_string(),
                modifications: vec![],
                comment: None,
            },
            candidates,
            parties: vec![],
            source: vec![],
            results: None,
            vacancies: None,
            enrolment: None,
            secondary_vacancies: None,
            excluded: vec![],
            tie_resolutions: TieResolutionsMadeByEC::default(),
        },
        atl: vec![],
        atl_types: vec![],
        atl_transfer_values: vec![],
        btl: vec![],
        btl_types: vec![],
        btl_transfer_values: vec![],
        informal: 0,
    }
}

fn btl(n: usize, prefs: &[usize]) -> BTL {
    BTL { candidates: prefs.iter().map(|&c| CandidateIndex(c)).collect(), n }
}

fn votes_of(btls: &[BTL]) -> Vec<PartiallyDistributedVote<'_>> {
    btls.iter().map(|b| PartiallyDistributedVote::new(b.n, &b.candidates, VoteSource::Btl(b))).collect()
}

#[test]
fn candidate_over_quota_is_elected_on_first_preferences() {
    let data = election(3);
    let btls = vec![btl(8, &[0]), btl(3, &[1, 0]), btl(2, &[2, 1])];
    let votes = votes_of(&btls);
    let ec = TieResolutionsMadeByEC::default();
    let transcript = distribute_preferences::<SimpleRules>(&data, &votes, 1, &[], &ec);
    assert_eq!(transcript.elected, vec![CandidateIndex(0)]);
    assert_eq!(transcript.counts.len(), 1);
    let quota = transcript.quota.unwrap();
    assert_eq!(quota.quota, 13 / 2 + 1);
    assert_eq!(transcript.counts[0].status.tallies.candidate, vec![8, 3, 2]);
}

#[test]
fn surplus_then_exclusion_then_last_two() {
    let data = election(4);
    let btls = vec![btl(10, &[0]), btl(6, &[1]), btl(5, &[2, 1]), btl(1, &[3, 2])];
    let votes = votes_of(&btls);
    let ec = TieResolutionsMadeByEC::default();
    let transcript = distribute_preferences::<SimpleRules>(&data, &votes, 2, &[], &ec);
    // quota is 22/3+1 = 8; A is elected with 10, its surplus of 2 exhausts, D is excluded and
    // its vote goes to C, leaving B and C on 6 each; B was ahead at the last count where they
    // differed, so B takes the last vacancy.
    assert_eq!(transcript.quota.as_ref().unwrap().quota, 8);
    assert_eq!(transcript.elected, vec![CandidateIndex(0), CandidateIndex(1)]);
    assert_eq!(transcript.counts.len(), 3);
    assert!(matches!(transcript.counts[1].reason, ReasonForCount::ExcessDistribution(CandidateIndex(0))));
    assert!(matches!(transcript.counts[2].reason, ReasonForCount::Elimination(_)));
    assert_eq!(transcript.counts[1].status.tallies.candidate, vec![8, 6, 5, 1]);
    assert_eq!(transcript.counts[2].status.tallies.candidate, vec![8, 6, 6, 0]);
    assert_eq!(transcript.counts[1].status.tallies.exhausted, 2);
}

#[test]
fn excluded_candidates_get_no_votes() {
    let data = election(3);
    let btls = vec![btl(4, &[0, 1]), btl(3, &[1]), btl(2, &[2])];
    let votes = votes_of(&btls);
    let ec = TieResolutionsMadeByEC::default();
    let mut work: PreferenceDistributor<'_, SimpleRules> =
        PreferenceDistributor::new(&data, &votes, 1, &[CandidateIndex(0)], &ec);
    assert_eq!(work.continuing_candidates_sorted_by_tally, vec![CandidateIndex(1), CandidateIndex(2)]);
    work.distribute_first_preferences();
    assert_eq!(work.tallys, vec![0, 7, 2]);
    assert_eq!(work.remaining_to_elect(), 0);
    assert_eq!(work.elected_candidates, vec![CandidateIndex(1)]);
}

#[test]
fn lowest_candidate_and_bulk_exclusion() {
    let data = election(4);
    let btls = vec![btl(20, &[0]), btl(9, &[1]), btl(2, &[2]), btl(1, &[3])];
    let votes = votes_of(&btls);
    let ec = TieResolutionsMadeByEC::default();
    let mut work: PreferenceDistributor<'_, SimpleRules> = PreferenceDistributor::new(&data, &votes, 2, &[], &ec);
    work.distribute_first_preferences();
    // quota 32/3+1 = 11: candidate 0 is elected.
    assert_eq!(work.elected_candidates, vec![CandidateIndex(0)]);
    assert_eq!(work.find_lowest_candidate(), vec![CandidateIndex(3)]);
    // Vacancy shortfall 11-9 = 2; notional votes 1, 3, 12: candidate B is candidate 3 (1 < 2, 1 < 2).
    // Its notional votes 1 are below the leading shortfall 2, so it alone may be excluded.
    assert_eq!(work.find_candidates_for_multiple_elimination_federal_rule_13a(), Some(vec![CandidateIndex(3)]));
}

#[test]
fn ties_are_resolved_and_noted_only_where_tallies_are_equal() {
    let data = election(3);
    let btls = vec![btl(5, &[0]), btl(3, &[1]), btl(3, &[2])];
    let votes = votes_of(&btls);
    let ec = TieResolutionsMadeByEC::default();
    let mut work: PreferenceDistributor<'_, SimpleRules> = PreferenceDistributor::new(&data, &votes, 1, &[], &ec);
    work.distribute_first_preferences();
    assert_eq!(work.tallys, vec![5, 3, 3]);
    let before = work.in_this_count.decisions.len();
    // No two neighbours have equal tallies: nothing changes and nothing is noted.
    let mut untied = vec![CandidateIndex(1), CandidateIndex(0)];
    work.check_for_ties_and_resolve(
        &mut untied,
        MethodOfTieResolution::NoResolution,
        TieResolutionGranularityNeeded::Total,
        TieResolutionUsage::Exclusion,
    );
    assert_eq!(untied, vec![CandidateIndex(1), CandidateIndex(0)]);
    assert_eq!(work.in_this_count.decisions.len(), before);
    // One tie: one decision, made for the given use, ordering both tied candidates.
    let mut tied = vec![CandidateIndex(1), CandidateIndex(2), CandidateIndex(0)];
    work.check_for_ties_and_resolve(
        &mut tied,
        MethodOfTieResolution::NoResolution,
        TieResolutionGranularityNeeded::Total,
        TieResolutionUsage::Exclusion,
    );
    assert_eq!(work.in_this_count.decisions.len(), before + 1);
    let decision = &work.in_this_count.decisions[before];
    assert_eq!(decision.usage, Some(TieResolutionUsage::Exclusion));
    assert_eq!(decision.increasing_favour.len(), 2);
    assert_eq!(tied[2], CandidateIndex(0));
    let mut pair = vec![tied[0], tied[1]];
    pair.sort_by_key(|c| c.0);
    assert_eq!(pair, vec![CandidateIndex(1), CandidateIndex(2)]);
}

fn strings(v: &[&str]) -> Vec<String> {
    v.iter().map(|s| s.to_string()).collect()
}

#[test]
fn vic_records_become_votes() {
    let data = election(3);
    let records = vec![
        strings(&["Ballot", "A", "B", "C"]),
        strings(&["1", "1", "2", ""]),
        strings(&["2", "", "", ""]),
        strings(&["3", "2", "1", "3"]),
        strings(&["x", "1", "", ""]),
        strings(&["4", "1", "2"]),
    ];
    let res = vic_votes_from_records(&records, data.metadata.clone(), "votes.csv");
    assert_eq!(res.btl.len(), 2);
    assert_eq!(res.btl[0].candidates, vec![CandidateIndex(0), CandidateIndex(1)]);
    assert_eq!(res.btl[0].n, 1);
    assert_eq!(res.btl[1].candidates, vec![CandidateIndex(1), CandidateIndex(0), CandidateIndex(2)]);
    assert_eq!(res.informal, 1);
    assert!(res.atl.is_empty());
    let last = res.metadata.source.last().unwrap();
    assert_eq!(last.url, "VEC does not publish unfortunately");
    assert_eq!(last.files, vec!["votes.csv".to_string()]);
}

#[test]
fn vic_headings_give_candidates_groups_and_atl_votes() {
    let data = election(0);
    let sheet = CalamineLikeWrapper {
        contents: vec![
            strings(&["Votes received"]),
            strings(&[
                "Some District",
                "Group A\nAlpha Party\nATL",
                "Group A\nAlpha Party\nSMITH Jo",
                "Group A\nAlpha Party\nJONES Al",
                "Group B\nBeta\nATL",
                "Group B\nBeta\nBROWN Bo",
                "Ungrouped\nGREEN Gi",
                "TOTAL",
            ]),
            strings(&["  Region Total ", "100", "5", "6", "50", "7", "8", "176"]),
        ],
    };
    let (m, atl) =
        vic_metadata_and_atl_votes(&sheet, data.metadata.name.clone(), "https://example", "votes.xls", NumberOfCandidates(5))
            .unwrap();
    let names: Vec<String> = m.candidates.iter().map(|c| c.name.clone()).collect();
    assert_eq!(names, strings(&["SMITH Jo", "JONES Al", "BROWN Bo", "GREEN Gi"]));
    assert_eq!(m.candidates[1].party, Some(PartyIndex(0)));
    assert_eq!(m.candidates[1].position, Some(2));
    assert_eq!(m.candidates[2].party, Some(PartyIndex(1)));
    assert_eq!(m.candidates[3].party, None);
    assert_eq!(m.parties.len(), 2);
    assert_eq!(m.parties[0].column_id, "Group A");
    assert_eq!(m.parties[0].name, "Alpha Party");
    assert!(m.parties[0].atl_allowed);
    assert_eq!(m.parties[0].candidates, vec![CandidateIndex(0), CandidateIndex(1)]);
    assert_eq!(m.parties[1].candidates, vec![CandidateIndex(2)]);
    assert_eq!(atl, vec![BallotPaperCount(100), BallotPaperCount(50)]);
    assert_eq!(m.vacancies, Some(NumberOfCandidates(5)));
    assert_eq!(m.source[0].url, "https://example");
}

#[test]
fn vic_headings_errors() {
    let data = election(0);
    let no_headings = CalamineLikeWrapper { contents: vec![strings(&["Region Total", "1"])] };
    assert!(matches!(
        vic_metadata_and_atl_votes(&no_headings, data.metadata.name.clone(), "u", "f", NumberOfCandidates(5)),
        Err(VicMetadataError::NoHeadingsRow)
    ));
    let no_total = CalamineLikeWrapper { contents: vec![strings(&["A District", "x"])] };
    assert!(matches!(
        vic_metadata_and_atl_votes(&no_total, data.metadata.name.clone(), "u", "f", NumberOfCandidates(5)),
        Err(VicMetadataError::NoRegionTotalRow)
    ));
    let bad = CalamineLikeWrapper {
        contents: vec![strings(&["A District", "Group A\nP\nATL"]), strings(&["REGION TOTAL", "many"])],
    };
    assert!(matches!(
        vic_metadata_and_atl_votes(&bad, data.metadata.name.clone(), "u", "f", NumberOfCandidates(5)),
        Err(VicMetadataError::BadAtlVotes)
    ));
    let missing = CalamineLikeWrapper {
        contents: vec![
            strings(&["A District", "Group A\nP\nATL", "Group B\nQ\nATL", "Group A\nP\nSMITH"]),
            strings(&["Region Total", "1", "2", "3"]),
        ],
    };
    match vic_metadata_and_atl_votes(&missing, data.metadata.name.clone(), "u", "f", NumberOfCandidates(5)) {
        Err(VicMetadataError::MissingAtlVotes(c)) => assert_eq!(c, "Group A"),
        other => panic!("unexpected {:?}", other.is_ok()),
    }
}

#[test]
fn alternative_rules_for_the_last_two_are_compared() {
    let data = election(4);
    let btls = vec![btl(10, &[0]), btl(6, &[1]), btl(5, &[2, 1]), btl(1, &[3, 2])];
    let votes = votes_of(&btls);
    let ec = TieResolutionsMadeByEC::default();
    let transcript = distribute_preferences::<SimpleRules>(&data, &votes, 2, &[], &ec);
    let (comparisons, results) = alternate_rule_differences::<SimpleRules>(&transcript, &data, &votes, 2, &[], &ec);
    assert_eq!(comparisons.len(), 2);
    assert_eq!(results.len(), 2);
    assert_eq!(comparisons[0].rule1, "Simple");
    assert_eq!(comparisons[0].rule2, "Simple_Earliest1of2");
    assert_eq!(comparisons[1].rule2, "Simple_Latest1of2");
}

#[test]
fn official_transcript_compared_count_by_count() {
    let data = election(3);
    let btls = vec![btl(8, &[0]), btl(3, &[1, 0]), btl(2, &[2, 1])];
    let votes = votes_of(&btls);
    let ec = TieResolutionsMadeByEC::default();
    let transcript = distribute_preferences::<SimpleRules>(&data, &votes, 1, &[], &ec);
    let mut first = OfficialDOPForOneCount::default();
    first.elected = vec![CandidateIndex(0)];
    let mut official = OfficialDistributionOfPreferencesTranscript::default();
    official.counts = vec![first.clone()];
    assert!(matches!(official.compare_with_transcript_checking_for_ec_decisions(&transcript), Ok(None)));
    official.counts.push(OfficialDOPForOneCount::default());
    assert!(matches!(
        official.compare_with_transcript_checking_for_ec_decisions(&transcript),
        Err(DifferenceBetweenOfficialDoPAndComputed::DifferentNumbersOfCounts(2, 1))
    ));
    let mut wrong = OfficialDistributionOfPreferencesTranscript::default();
    let mut wrong_first = OfficialDOPForOneCount::default();
    wrong_first.elected = vec![CandidateIndex(1)];
    wrong.counts = vec![wrong_first];
    match wrong.compare_with_transcript_checking_for_ec_decisions(&transcript) {
        Err(DifferenceBetweenOfficialDoPAndComputed::DifferentOnCount(c, _, _)) => assert_eq!(c.0, 0),
        _ => panic!("expected a difference on the first count"),
    }
}

#[test]
fn vic_dop_layout_is_read_from_headings() {
    let data = election(2);
    let sheet = CalamineLikeWrapper {
        contents: vec![
            strings(&["Formal Ballot Papers included in count: 1234"]),
            strings(&["Quota: 206.0"]),
            strings(&[
                "Count No.",
                "Count Details",
                "Transfer Value",
                "Candidate 1",
                " Candidate\n 0",
                "Exhausted",
                "Gain/Loss",
                "TOTAL",
                "Candidates elected at this count",
            ]),
        ],
    };
    let f = vic_dop_format(&sheet, &data.metadata).unwrap();
    assert_eq!(f.formal_ballots, BallotPaperCount(1234));
    assert_eq!(f.quota_text, "206.0");
    assert_eq!(f.count_details_column, 1);
    assert_eq!(f.tv_column, 2);
    assert_eq!(f.column_for_candidate, vec![Some(4), Some(3)]);
    assert_eq!(f.exhausted_column, Some(5));
    assert_eq!(f.rounding_column, Some(6));
    assert_eq!(f.elected_column, Some(8));
    assert_eq!(f.table_headings_row, 2);
    let unknown = CalamineLikeWrapper {
        contents: vec![
            strings(&["Formal Ballot Papers included in count: 12"]),
            strings(&["Quota: 3"]),
            strings(&["CountNo.", "Mystery"]),
        ],
    };
    match vic_dop_format(&unknown, &data.metadata) {
        Err(VicDopError::UnknownHeading(h)) => assert_eq!(h, "Mystery"),
        _ => panic!("expected an unknown heading"),
    }
    let no_headings = CalamineLikeWrapper { contents: vec![strings(&["Quota: 3"])] };
    assert!(matches!(vic_dop_format(&no_headings, &data.metadata), Err(VicDopError::NoHeadingsRow)));
    let no_quota = CalamineLikeWrapper {
        contents: vec![strings(&["Formal Ballot Papers included in count: 12"]), strings(&["Count No."])],
    };
    assert!(matches!(vic_dop_format(&no_quota, &data.metadata), Err(VicDopError::NoQuota)));
    let bad = CalamineLikeWrapper { contents: vec![strings(&["Formal Ballot Papers included in count: lots"])] };
    assert!(matches!(vic_dop_format(&bad, &data.metadata), Err(VicDopError::BadFormalBallots)));
}
