use ranked_vote::btv::{parse_ballot, parse_ballot_checked, render_ballot};
use ranked_vote::metadata::Params;
use ranked_vote::model::{CandidateId, Choice};

#[test]
fn test_parse_ballot() {
    assert_eq!(Vec::new() as Vec<Choice>, parse_ballot(""));

    assert_eq!(vec![Choice::Vote(CandidateId(3))], parse_ballot("C04"));

    assert_eq!(
        vec![Choice::Vote(CandidateId(3)), Choice::Vote(CandidateId(2))],
        parse_ballot("C04,C03")
    );

    assert_eq!(
        vec![Choice::Overvote, Choice::Vote(CandidateId(2))],
        parse_ballot("C04=C06,C03")
    );
}

#[test]
fn test_parse_ballot_checked_rejects_malformed() {
    assert!(parse_ballot_checked("C04").is_some());
    assert!(parse_ballot_checked("bogus").is_none());
    assert!(parse_ballot_checked("C0").is_none());
    assert!(parse_ballot_checked("C").is_none());
    assert!(parse_ballot_checked("C04,").is_none());
    assert!(parse_ballot_checked("C9999999999").is_none());
    assert!(parse_ballot_checked("").is_some());
}

#[test]
fn test_render_parse_round_trip() {
    let parsed = parse_ballot("C04=C06,C03,C01");
    let rendered = render_ballot(&parsed);
    assert_eq!("=,C3,C1", rendered.as_str());
    let reparsed = parse_ballot(rendered.as_str());
    assert_eq!(parsed, reparsed);
}

#[test]
fn test_render_single_vote() {
    let parsed = parse_ballot("C12");
    let rendered = render_ballot(&parsed);
    assert_eq!("C12", rendered.as_str());
    assert_eq!(parsed, parse_ballot(rendered.as_str()));
}

#[test]
fn test_btv_reader_options() {
    let mut params = Params::new();
    params.insert(String::from("ballots"), String::from("log.txt"));
    params.insert(String::from("archive"), String::from("data.zip"));
    let options = ranked_vote::btv::ReaderOptions::from_params(&params);
    assert_eq!("log.txt", options.ballots.as_str());
    assert_eq!(Some(String::from("data.zip")), options.archive);
}

#[test]
fn test_parse_ballot_large_candidate_number() {
    assert_eq!(vec![Choice::Vote(CandidateId(122))], parse_ballot("C123"));
    assert_eq!(vec![Choice::Vote(CandidateId(8))], parse_ballot("C0009"));
}
