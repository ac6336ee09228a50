use ranked_vote::metadata::Params;
use ranked_vote::model::{Candidate, CandidateId, CandidateType, Choice};
use ranked_vote::nyc::{nyc_batch_reader, BallotDatabase};

fn sample_db() -> BallotDatabase {
    let mut db = BallotDatabase::new();
    db.candidates.push((7, String::from("Carol")));
    let race = String::from("Mayor|Citywide");
    assert!(!db.has_race(&race));
    db.register_race(&race, &String::from("Mayor"), &String::from("Citywide"));
    assert!(db.has_race(&race));
    db.record_ballot(
        &race,
        String::from("cvr-1"),
        vec![Choice::Vote(CandidateId(0)), Choice::Undervote],
    );
    db.record_ballot(&race, String::from("cvr-2"), vec![Choice::Overvote]);
    db.set_race_candidates(
        race,
        vec![Candidate::new(String::from("Carol"), CandidateType::Regular)],
    );
    db
}

#[test]
fn test_get_ballots_for_race() {
    let db = sample_db();
    let found = db.get_ballots_for_race(&String::from("Mayor|Citywide"));
    assert_eq!(2, found.len());
    assert_eq!("cvr-1", found[0].ballot_id.as_str());
    assert_eq!("cvr-2", found[1].ballot_id.as_str());
    let missing = db.get_ballots_for_race(&String::from("Council|D1"));
    assert_eq!(0, missing.len());
}

#[test]
fn test_to_election() {
    let db = sample_db();
    let election = db.to_election(&String::from("Mayor|Citywide")).unwrap();
    assert_eq!(1, election.candidates.len());
    assert_eq!("Carol", election.candidates[0].name.as_str());
    assert_eq!(2, election.ballots.len());
    assert_eq!("cvr-1", election.ballots[0].id.as_str());
    assert_eq!(
        vec![Choice::Vote(CandidateId(0)), Choice::Undervote],
        election.ballots[0].choices
    );
    assert!(db.to_election(&String::from("Council|D1")).is_none());
}

#[test]
fn test_nyc_batch_reader_maps_contests() {
    let db = sample_db();
    let mut params = Params::new();
    params.insert(String::from("officeName"), String::from("Mayor"));
    params.insert(String::from("jurisdictionName"), String::from("Citywide"));
    let mut params_missing = Params::new();
    params_missing.insert(String::from("officeName"), String::from("Council"));
    params_missing.insert(String::from("jurisdictionName"), String::from("D1"));
    let contests = vec![
        (String::from("mayor"), params),
        (String::from("council-d1"), params_missing),
    ];
    let result = nyc_batch_reader(&db, &contests);
    assert_eq!(2, result.len());
    assert_eq!("mayor", result[0].0.as_str());
    assert_eq!(2, result[0].1.ballots.len());
    assert_eq!("council-d1", result[1].0.as_str());
    assert_eq!(0, result[1].1.ballots.len());
}
