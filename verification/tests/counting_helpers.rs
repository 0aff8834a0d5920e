use stv::ballot_metadata::CandidateAndPartyBuilder;
use stv::ballot_paper::RawBallotMarking;
use stv::ballot_pile::BallotPaperCount;
use stv::errors_btl::ObviousErrorsInBTLVotes;
use stv::find_vote::{FindMyVoteQuery, FindMyVoteResult, FindVoteHit, StringHashMap};
use rand::SeedableRng;
use stv::ballot_metadata::CandidateIndex;
use stv::distribution_of_preferences_transcript::CountIndex;
use stv::list_of_meek_vote_sources::ListOfMeekVoteSourcesBuilder;
use stv::random_util::Randomness;
use stv::transfer_value::TransferValue;
use stv::util::DetectUnique;

#[test]
fn missing_last_preference_is_counted() {
    let mut e = ObviousErrorsInBTLVotes::new(3);
    e.add_paper(&[RawBallotMarking::Number(1), RawBallotMarking::Number(2), RawBallotMarking::Blank]);
    assert_eq!(e.missing, vec![BallotPaperCount(0), BallotPaperCount(0), BallotPaperCount(1)]);
    assert_eq!(e.ok_up_to, vec![BallotPaperCount(0), BallotPaperCount(0), BallotPaperCount(1), BallotPaperCount(0)]);
    assert_eq!(e.repeated, vec![0, 0, 0]);
    assert_eq!(e.repeated_papers, vec![BallotPaperCount(0), BallotPaperCount(0), BallotPaperCount(0)]);
}

#[test]
fn detector_is_fresh_after_take() {
    let mut d: DetectUnique<CountIndex> = DetectUnique::default();
    d.add(CountIndex(1));
    d.add(CountIndex(2));
    assert_eq!(d.take(), None);
    d.add(CountIndex(3));
    assert_eq!(d.take(), Some(CountIndex(3)));
    d.add(CountIndex(4));
    d.add(CountIndex(4));
    d.add(CountIndex(4));
    assert_eq!(d.take(), Some(CountIndex(4)));
    d.add(CountIndex(5));
    d.add(CountIndex(6));
    d.add(CountIndex(5));
    assert_eq!(d.take(), None);
}

#[test]
fn some_randomly_true() {
    let mut prng = Randomness::PRNG(rand_chacha::ChaCha20Rng::seed_from_u64(1));
    let a4_10 = prng.make_array_with_some_randomly_true(10, 4);
    assert_eq!(10, a4_10.len());
    assert_eq!(4, a4_10.iter().filter(|v| **v).count());
    let a7_10 = prng.make_array_with_some_randomly_true(10, 7);
    assert_eq!(10, a7_10.len());
    assert_eq!(7, a7_10.iter().filter(|v| **v).count());
    let mut donkey = Randomness::ReverseDonkeyVote;
    let a4_6 = donkey.make_array_with_some_randomly_true(6, 4);
    assert_eq!(vec![true, true, true, true, false, false], a4_6);
}

#[test]
fn meek_builder_adds_up_papers_by_route() {
    let mut b = ListOfMeekVoteSourcesBuilder::default();
    let r1 = vec![CandidateIndex(0), CandidateIndex(1)];
    let r2 = vec![CandidateIndex(1)];
    b.add(BallotPaperCount(2), &r1, || "0.5".to_string());
    b.add(BallotPaperCount(3), &r2, || "1".to_string());
    b.add(BallotPaperCount(4), &r1, || "0.25".to_string());
    let list = b.into();
    assert_eq!(list.sources.len(), 2);
    assert_eq!(list.sources[0].route, r1);
    assert_eq!(list.sources[0].count, BallotPaperCount(6));
    assert_eq!(list.sources[0].weight, "0.5");
    assert_eq!(list.sources[1].route, r2);
    assert_eq!(list.sources[1].count, BallotPaperCount(3));
}

#[test]
fn transfer_value_text_reads_back_exactly() {
    let tv = TransferValue::new(34, 234);
    let text = tv.to_text();
    assert_eq!(text, "17/117");
    let back = TransferValue::from_text(&text).unwrap();
    assert_eq!((back.numerator, back.denominator), (17, 117));
    assert_eq!(TransferValue::one().to_text(), "1");
    let one = TransferValue::from_text("1").unwrap();
    assert_eq!((one.numerator, one.denominator), (1, 1));
    let reduced = TransferValue::from_text("6/4").unwrap();
    assert_eq!((reduced.numerator, reduced.denominator), (3, 2));
}

#[test]
fn errors_are_summed_over_papers() {
    let papers = vec![
        vec![RawBallotMarking::Number(1), RawBallotMarking::Number(2), RawBallotMarking::Number(3)],
        vec![RawBallotMarking::Number(1), RawBallotMarking::Number(1), RawBallotMarking::Number(2)],
        vec![RawBallotMarking::Number(1), RawBallotMarking::Blank, RawBallotMarking::Number(3)],
    ];
    let e = ObviousErrorsInBTLVotes::compute(3, &papers);
    assert_eq!(e.repeated, vec![1, 0, 0]);
    assert_eq!(e.repeated_papers, vec![BallotPaperCount(1), BallotPaperCount(0), BallotPaperCount(0)]);
    assert_eq!(e.missing, vec![BallotPaperCount(0), BallotPaperCount(1), BallotPaperCount(1)]);
    assert_eq!(e.ok_up_to, vec![BallotPaperCount(1), BallotPaperCount(1), BallotPaperCount(0), BallotPaperCount(1)]);
}

#[test]
fn best_matches_are_grouped_by_score() {
    let query = FindMyVoteQuery { query: "1,2,3".to_string(), blank_matches_anything: false };
    let n = |k: u16| RawBallotMarking::Number(k);
    let papers = vec![
        vec![n(1), n(2), n(3)],
        vec![n(1), n(2), n(4)],
        vec![n(1), n(2), n(3)],
        vec![n(2), n(1), n(3)],
        vec![n(9), n(9), n(9)],
    ];
    let hits: Vec<FindVoteHit> = ["a", "b", "c", "d", "e"]
        .iter()
        .map(|v| FindVoteHit { metadata: StringHashMap::new(), votes: v.to_string() })
        .collect();
    let res = FindMyVoteResult::compute(&query, &papers, hits);
    let scores: Vec<usize> = res.best.iter().map(|g| g.score).collect();
    assert_eq!(scores, vec![3, 2, 1]);
    let votes: Vec<Vec<String>> = res.best.iter().map(|g| g.hits.iter().map(|h| h.votes.clone()).collect()).collect();
    assert_eq!(votes, vec![vec!["a".to_string(), "c".to_string()], vec!["b".to_string()], vec!["d".to_string()]]);
    assert!(res.best.iter().all(|g| g.truncated == 0));
}

#[test]
fn last_party_can_be_changed() {
    let mut b = CandidateAndPartyBuilder::default();
    assert!(b.last_party_mut().is_err());
    b.add_party("A", "First", None, true);
    b.add_party("B", "Second", Some("S"), false);
    b.last_party_mut().unwrap().atl_allowed = true;
    assert!(b.parties[1].atl_allowed);
    assert!(b.parties[0].atl_allowed);
    assert_eq!(b.parties[1].name, "Second");
}
