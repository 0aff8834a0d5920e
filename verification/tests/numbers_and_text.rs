use stv::parse_util::string_from_windows_1252;
use stv::ballot_metadata::CandidateIndex;
use stv::ballot_pile::BallotPaperCount;
use stv::fixed_precision_decimal::FixedPrecisionDecimal;
use stv::simple_list_of_votes::{ListOfVotes, ParseVoteError, Vote, VotesWithGivenTransferValue};
use stv::tally::TallyValue;
use stv::text::{isize_text, parse_isize, parse_unsigned, split_once_text, split_text};
use stv::transfer_value::{convert_usize_to_rational, round_rational_down_to_usize, Fraction, TransferValue};

#[test]
fn it_works() {
    assert_eq!(2 + 2, 4);
}

#[test]
fn test_six_digit_decimal() {
    type SixDigitDecimal = FixedPrecisionDecimal<6>;
    assert!(<SixDigitDecimal as TallyValue>::zero().is_zero());

    let mut d_42: SixDigitDecimal = SixDigitDecimal::from_usize(42);
    assert_eq!("42", d_42.to_text());
    d_42.add_assign(<SixDigitDecimal as TallyValue>::zero());
    assert_eq!("42", d_42.to_text());
    let d_1: SixDigitDecimal = SixDigitDecimal::from_usize(1);
    assert_eq!("43", d_42.add(d_1).to_text());
    assert_eq!("41", d_42.sub(d_1).to_text());
    let sum: SixDigitDecimal = SixDigitDecimal::sum(&[d_42, d_1]);
    assert_eq!("43", sum.to_text());
    d_42.add_assign(d_1);
    assert_eq!("43", d_42.to_text());
    d_42.sub_assign(d_1);
    assert_eq!("42", d_42.to_text());
    let parsed: SixDigitDecimal = SixDigitDecimal::from_text("45.25").unwrap();
    assert_eq!("45.25", parsed.to_text());
}

#[test]
fn fixed_precision_decimal_text_forms() {
    type D = FixedPrecisionDecimal<6>;
    assert_eq!(D::from_text("0.5").unwrap().get_scaled_value(), 500000);
    assert_eq!(D::from_text("7").unwrap().get_scaled_value(), 7000000);
    assert_eq!(D::from_text("1.000001").unwrap().get_scaled_value(), 1000001);
    assert!(D::from_text("1.2.3").is_none());
    assert!(D::from_text("x").is_none());
    assert_eq!(D::from_scaled_value(1000001).to_text(), "1.000001");
    assert_eq!(D::from_scaled_value(2500000).to_text(), "2.5");
    assert_eq!(D::from_scaled_value(2500000).ceil(), 3);
    assert_eq!(D::from_scaled_value(2000000).ceil(), 2);
    assert_eq!(D::from_scaled_value(2500000).round_down().get_scaled_value(), 2000000);
    assert_eq!(D::scale(), 1000000);
}

#[test]
fn transfer_value_reduces_to_lowest_terms() {
    let tv = TransferValue::new(6, 8);
    assert_eq!((tv.numerator, tv.denominator), (3, 4));
    assert_eq!(tv.to_text(), "3/4");
    let whole = TransferValue::new(4, 2);
    assert_eq!(whole.to_text(), "2");
    assert!(TransferValue::one().is_one());
    assert!(TransferValue::new(3, 3).is_one());
    assert!(tv.same_as(&TransferValue { numerator: 6, denominator: 8 }));
    assert!(TransferValue::new(1, 3).less_than(&tv));
    let s = TransferValue::from_surplus(10, BallotPaperCount(40));
    assert_eq!((s.numerator, s.denominator), (1, 4));
}

#[test]
fn transfer_value_read_from_text() {
    let tv = TransferValue::from_text("6/8").unwrap();
    assert_eq!((tv.numerator, tv.denominator), (3, 4));
    let tv = TransferValue::from_text("5").unwrap();
    assert_eq!((tv.numerator, tv.denominator), (5, 1));
    assert!(TransferValue::from_text("1/0").is_none());
    assert!(TransferValue::from_text("a/2").is_none());
    assert!(TransferValue::from_text("1/2/3").is_none());
}

#[test]
fn transfer_value_multiplication() {
    let tv = TransferValue::new(1, 3);
    assert_eq!(tv.mul_rounding_down(BallotPaperCount(10)), 3);
    let (whole, remainder) = tv.mul_rounding_down_and_remainder(BallotPaperCount(10));
    assert_eq!(whole, 3);
    assert_eq!(remainder.numerator * 3, remainder.denominator as u128);
    assert_eq!(tv.mul_rounding_nearest(BallotPaperCount(11)), 4);
    assert_eq!(tv.mul_rounding_nearest(BallotPaperCount(10)), 3);
    let exact = tv.mul(BallotPaperCount(10));
    assert_eq!(round_rational_down_to_usize(exact), 3);
    let needed = tv.num_ballot_papers_to_get_this_tv(Fraction { numerator: 7, denominator: 2 });
    assert_eq!(needed.0, 11);
    let r = convert_usize_to_rational(17);
    assert_eq!((r.numerator, r.denominator), (17, 1));
}

#[test]
fn numbers_read_as_std_reads_them() {
    assert_eq!(parse_unsigned("+12", 100), Some(12));
    assert_eq!(parse_unsigned("101", 100), None);
    assert_eq!(parse_unsigned("", 100), None);
    assert_eq!(parse_isize("-42"), Some(-42));
    assert_eq!(parse_isize("+7"), Some(7));
    assert_eq!(parse_isize("-+7"), None);
    assert_eq!(parse_isize("-"), None);
    assert_eq!(parse_isize("-9223372036854775808"), Some(isize::MIN));
    assert_eq!(isize_text(-305), "-305");
    assert_eq!(isize_text(0), "0");
}

#[test]
fn text_is_split_at_separators() {
    assert_eq!(split_text("a;b;;c", ';'), vec!["a", "b", "", "c"]);
    assert_eq!(split_text("", ';'), vec![""]);
    assert_eq!(split_once_text("3*1,2", '*'), Some(("3".to_string(), "1,2".to_string())));
    assert_eq!(split_once_text("31,2", '*'), None);
}

fn vote(n: isize, c: &[usize]) -> Vote {
    Vote { n, candidates: c.iter().map(|&i| CandidateIndex(i)).collect() }
}

fn indices(v: &Vote) -> Vec<usize> {
    v.candidates.iter().map(|c| c.0).collect()
}

#[test]
fn vote_text_form() {
    assert_eq!(vote(3, &[0, 2, 1]).to_text(), "3*0,2,1");
    assert_eq!(vote(-2, &[5]).to_text(), "-2*5");
    let v = Vote::from_text("-4*7,0").unwrap();
    assert_eq!(v.n, -4);
    assert_eq!(indices(&v), vec![7, 0]);
    assert!(matches!(Vote::from_text("4"), Err(ParseVoteError::NoTimes)));
    assert!(matches!(Vote::from_text("x*1"), Err(ParseVoteError::NotInteger)));
    assert!(matches!(Vote::from_text("4*1,y"), Err(ParseVoteError::NotInteger)));
    assert!(matches!(Vote::from_text("4*"), Err(ParseVoteError::NotInteger)));
}

#[test]
fn list_of_votes_text_form() {
    let list = ListOfVotes {
        tvs: vec![
            VotesWithGivenTransferValue { tv: TransferValue::one(), votes: vec![vote(2, &[0, 1]), vote(1, &[1])] },
            VotesWithGivenTransferValue { tv: TransferValue::new(1, 2), votes: vec![] },
            VotesWithGivenTransferValue { tv: TransferValue::new(1, 3), votes: vec![vote(5, &[2])] },
        ],
    };
    let text = list.to_text();
    assert_eq!(text, "2*0,1;1*1;TV:1/3;5*2");
    let back = ListOfVotes::from_text(&text).unwrap();
    assert_eq!(back.tvs.len(), 2);
    assert!(back.tvs[0].tv.is_one());
    assert_eq!(back.tvs[0].votes.len(), 2);
    assert_eq!(indices(&back.tvs[0].votes[0]), vec![0, 1]);
    assert_eq!((back.tvs[1].tv.numerator, back.tvs[1].tv.denominator), (1, 3));
    assert_eq!(back.tvs[1].votes[0].n, 5);
    assert!(matches!(ListOfVotes::from_text("TV:1/0;1*2"), Err(ParseVoteError::NotTransferValue)));
    assert!(matches!(ListOfVotes::from_text(""), Err(ParseVoteError::NoTimes)));
    assert!(matches!(ListOfVotes::from_text("1*2;x"), Err(ParseVoteError::NoTimes)));
}

#[test]
fn votes_with_one_transfer_value() {
    let g = VotesWithGivenTransferValue::from_text("TV:1/2;3*4").unwrap();
    assert_eq!((g.tv.numerator, g.tv.denominator), (1, 2));
    assert_eq!(g.votes.len(), 1);
    assert_eq!(g.to_text(), "1/2*3*4");
    assert!(matches!(
        VotesWithGivenTransferValue::from_text("1*1;TV:1/2;3*4"),
        Err(ParseVoteError::MultipleTransferValues)
    ));
}

#[test]
fn windows_1252_bytes_are_decoded() {
    assert_eq!(string_from_windows_1252(b"Caf\xe9 \x93A\x94").unwrap(), "Café \u{201c}A\u{201d}");
    assert_eq!(string_from_windows_1252(b"plain").unwrap(), "plain");
}
