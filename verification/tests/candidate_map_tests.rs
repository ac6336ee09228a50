use ranked_vote::candidate_map::CandidateMap;
use ranked_vote::model::{Candidate, CandidateId, CandidateType, Choice};

#[test]
fn test_add_and_id_to_choice() {
    let mut map: CandidateMap<u32> = CandidateMap::new();
    map.add(7, Candidate::new(String::from("Alice"), CandidateType::Regular));
    map.add(9, Candidate::new(String::from("Bob"), CandidateType::Regular));
    assert_eq!(Choice::Vote(CandidateId(0)), map.id_to_choice(7));
    assert_eq!(Choice::Vote(CandidateId(1)), map.id_to_choice(9));
    let candidates = map.into_vec();
    assert_eq!(2, candidates.len());
    assert_eq!("Alice", candidates[0].name.as_str());
    assert_eq!("Bob", candidates[1].name.as_str());
}

#[test]
fn test_add_id_to_choice_idempotent() {
    // Registering the same external id and candidate twice returns the same
    // choice and leaves the candidate table unchanged.
    let mut map: CandidateMap<String> = CandidateMap::new();
    let c1 = map.add_id_to_choice(
        String::from("X"),
        Candidate::new(String::from("Xavier"), CandidateType::Regular),
    );
    let c2 = map.add_id_to_choice(
        String::from("X"),
        Candidate::new(String::from("Xavier"), CandidateType::Regular),
    );
    assert_eq!(c1, c2);
    assert_eq!(Choice::Vote(CandidateId(0)), c1);
    let candidates = map.into_vec();
    assert_eq!(1, candidates.len());
}

#[test]
fn test_add_id_to_choice_name_dedup() {
    // A new external key whose candidate name already exists aliases to the
    // existing candidate.
    let mut map: CandidateMap<u32> = CandidateMap::new();
    let c1 = map.add_id_to_choice(
        1,
        Candidate::new(String::from("Write-in"), CandidateType::WriteIn),
    );
    let c2 = map.add_id_to_choice(
        2,
        Candidate::new(String::from("Write-in"), CandidateType::WriteIn),
    );
    assert_eq!(c1, c2);
    let candidates = map.into_vec();
    assert_eq!(1, candidates.len());
}

#[test]
fn test_merge_assigns_fresh_ids_without_name_dedup() {
    let mut left: CandidateMap<u32> = CandidateMap::new();
    left.add(1, Candidate::new(String::from("Alice"), CandidateType::Regular));
    let mut right: CandidateMap<u32> = CandidateMap::new();
    right.add(1, Candidate::new(String::from("Alice"), CandidateType::Regular));
    right.add(2, Candidate::new(String::from("Alice"), CandidateType::Regular));
    left.merge(right);
    // Key 1 was known; key 2 is new and gets a fresh index even though the
    // name matches.
    assert_eq!(Choice::Vote(CandidateId(0)), left.id_to_choice(1));
    assert_eq!(Choice::Vote(CandidateId(1)), left.id_to_choice(2));
    let candidates = left.into_vec();
    assert_eq!(2, candidates.len());
}
