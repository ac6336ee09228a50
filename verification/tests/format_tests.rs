use ranked_vote::candidate_map::CandidateMap;
use ranked_vote::metadata::Params;
use ranked_vote::model::{CandidateId, Choice};
use ranked_vote::mpls;
use ranked_vote::nist::{self, ContestMarks, Mark, Session, SessionBallot};
use ranked_vote::normalize::{
    normalize_ballot, NormalizerOptions, OvervotePolicy, SkippedRankPolicy,
};
use ranked_vote::nyc::{interpret_cell, CellValue};

fn mark(candidate_id: u32, rank: u32, ambiguous: bool) -> Mark {
    Mark {
        candidate_id,
        party_id: None,
        rank,
        mark_density: 50,
        is_ambiguous: ambiguous,
        is_vote: true,
    }
}

#[test]
fn test_mpls_parse_choice_special_tokens() {
    let mut map: CandidateMap<String> = CandidateMap::new();
    assert_eq!(Choice::Undervote, mpls::parse_choice("undervote", &mut map));
    assert_eq!(Choice::Undervote, mpls::parse_choice(" UNDERVOTE ", &mut map));
    assert_eq!(Choice::Overvote, mpls::parse_choice("overvote", &mut map));
    assert_eq!(Choice::Undervote, mpls::parse_choice("", &mut map));
    assert_eq!(Choice::Undervote, mpls::parse_choice("   ", &mut map));
    assert_eq!(0, map.into_vec().len());
}

#[test]
fn test_mpls_parse_choice_candidates_and_uwi() {
    let mut map: CandidateMap<String> = CandidateMap::new();
    let a = mpls::parse_choice("Alice", &mut map);
    let b = mpls::parse_choice("Bob", &mut map);
    let again = mpls::parse_choice(" Alice ", &mut map);
    let uwi = mpls::parse_choice("UWI", &mut map);
    assert_eq!(Choice::Vote(CandidateId(0)), a);
    assert_eq!(Choice::Vote(CandidateId(1)), b);
    assert_eq!(a, again);
    assert_eq!(Choice::Vote(CandidateId(2)), uwi);
    let candidates = map.into_vec();
    assert_eq!(3, candidates.len());
    assert_eq!("Undeclared Write-ins", candidates[2].name.as_str());
}

#[test]
fn test_mpls_reader_options() {
    let mut params = Params::new();
    params.insert(String::from("file"), String::from("ballots.csv"));
    let options = mpls::ReaderOptions::from_params(&params);
    assert_eq!("ballots.csv", options.file.as_str());
}

#[test]
fn test_session_ballot_prefers_modified() {
    let original = SessionBallot {
        precinct_portion_id: 1,
        ballot_type_id: 1,
        is_current: true,
        contests: Some(vec![ContestMarks { id: 5, marks: vec![mark(1, 1, false)] }]),
        cards: None,
    };
    let modified = SessionBallot {
        precinct_portion_id: 1,
        ballot_type_id: 1,
        is_current: true,
        contests: None,
        cards: None,
    };
    let session = Session {
        tabulator_id: 1,
        batch_id: 2,
        record_id: String::from("3"),
        counting_group_id: 4,
        image_mask: String::from("mask"),
        original,
        modified: Some(modified),
    };
    assert!(session.ballot().contests.is_none());
    let contests = session.contests();
    assert_eq!(1, contests.len());
    assert_eq!(5, contests[0].id);
}

#[test]
fn test_marks_to_choices_ranks() {
    let mut map: CandidateMap<u32> = CandidateMap::new();
    map.add(
        10,
        ranked_vote::model::Candidate::new(
            String::from("Alice"),
            ranked_vote::model::CandidateType::Regular,
        ),
    );
    map.add(
        20,
        ranked_vote::model::Candidate::new(
            String::from("Bob"),
            ranked_vote::model::CandidateType::Regular,
        ),
    );
    // Rank 1: one mark; rank 2: duplicate marks (overvote); rank 3: only an
    // ambiguous mark (undervote).
    let marks = vec![
        mark(10, 1, false),
        mark(10, 2, false),
        mark(20, 2, false),
        mark(20, 3, true),
    ];
    let choices = nist::marks_to_choices(&marks, 3, &map);
    assert_eq!(
        vec![
            Choice::Vote(CandidateId(0)),
            Choice::Overvote,
            Choice::Undervote
        ],
        choices
    );
}

#[test]
fn test_marks_unknown_candidate_degrades_to_undervote() {
    let map: CandidateMap<u32> = CandidateMap::new();
    let marks = vec![mark(99, 1, false)];
    let choices = nist::marks_to_choices(&marks, 1, &map);
    assert_eq!(vec![Choice::Undervote], choices);
}

#[test]
fn test_nyc_interpret_cell() {
    let directory = vec![(7u32, String::from("Carol"))];
    let mut map: CandidateMap<u32> = CandidateMap::new();
    assert_eq!(
        (Choice::Undervote, false),
        interpret_cell(&CellValue::Text(String::from("undervote")), &directory, &mut map)
    );
    assert_eq!(
        (Choice::Overvote, true),
        interpret_cell(&CellValue::Text(String::from("overvote")), &directory, &mut map)
    );
    let (w, has) = interpret_cell(
        &CellValue::Text(String::from("Write-in")),
        &directory,
        &mut map,
    );
    assert!(has);
    assert_eq!(Choice::Vote(CandidateId(0)), w);
    let (c, has2) = interpret_cell(&CellValue::Num(7), &directory, &mut map);
    assert!(has2);
    assert_eq!(Choice::Vote(CandidateId(1)), c);
    let (c2, has3) =
        interpret_cell(&CellValue::Text(String::from("7")), &directory, &mut map);
    assert!(has3);
    assert_eq!(c, c2);
    assert_eq!(
        (Choice::Undervote, false),
        interpret_cell(&CellValue::Num(8), &directory, &mut map)
    );
    assert_eq!(
        (Choice::Undervote, false),
        interpret_cell(&CellValue::Text(String::from("junk")), &directory, &mut map)
    );
    let candidates = map.into_vec();
    assert_eq!(2, candidates.len());
    assert_eq!("Write-in", candidates[0].name.as_str());
    assert_eq!("Carol", candidates[1].name.as_str());
}

#[test]
fn test_normalize_policies() {
    let b = ranked_vote::model::Ballot::new(
        String::from("n1"),
        vec![
            Choice::Vote(CandidateId(0)),
            Choice::Overvote,
            Choice::Vote(CandidateId(1)),
        ],
    );
    let exhaust = NormalizerOptions {
        ballot_depth: None,
        overvote: OvervotePolicy::Exhaust,
        skipped_ranks: SkippedRankPolicy::Keep,
    };
    let n1 = normalize_ballot(b, &exhaust);
    assert_eq!(vec![Choice::Vote(CandidateId(0)), Choice::Overvote], n1.choices);

    let b2 = ranked_vote::model::Ballot::new(
        String::from("n2"),
        vec![
            Choice::Undervote,
            Choice::Undervote,
            Choice::Vote(CandidateId(1)),
        ],
    );
    let exhaust_two = NormalizerOptions {
        ballot_depth: None,
        overvote: OvervotePolicy::SkipRank,
        skipped_ranks: SkippedRankPolicy::ExhaustOnTwo,
    };
    let n2 = normalize_ballot(b2, &exhaust_two);
    assert_eq!(Vec::<Choice>::new(), n2.choices);

    let b3 = ranked_vote::model::Ballot::new(
        String::from("n3"),
        vec![
            Choice::Undervote,
            Choice::Vote(CandidateId(1)),
            Choice::Vote(CandidateId(2)),
        ],
    );
    let depth = NormalizerOptions {
        ballot_depth: Some(2),
        overvote: OvervotePolicy::SkipRank,
        skipped_ranks: SkippedRankPolicy::SkipRank,
    };
    let n3 = normalize_ballot(b3, &depth);
    assert_eq!(vec![Choice::Vote(CandidateId(1))], n3.choices);
}

#[test]
fn test_mpls_row_collapses_on_overvote() {
    let mut map: CandidateMap<String> = CandidateMap::new();
    let collapsed = mpls::row_choices("Alice", "overvote", "Bob", &mut map);
    assert_eq!(vec![Choice::Overvote], collapsed);
    assert_eq!(0, map.into_vec().len());
}

#[test]
fn test_mpls_row_without_overvote() {
    let mut map: CandidateMap<String> = CandidateMap::new();
    let choices = mpls::row_choices("Alice", "undervote", "Bob", &mut map);
    assert_eq!(
        vec![
            Choice::Vote(CandidateId(0)),
            Choice::Undervote,
            Choice::Vote(CandidateId(1))
        ],
        choices
    );
    assert_eq!(2, map.into_vec().len());
}

#[test]
fn test_normalize_single_skip_tolerated() {
    // One skipped rank is tolerated under the two-consecutive policy.
    let b = ranked_vote::model::Ballot::new(
        String::from("n4"),
        vec![
            Choice::Vote(CandidateId(0)),
            Choice::Undervote,
            Choice::Vote(CandidateId(1)),
        ],
    );
    let options = NormalizerOptions {
        ballot_depth: None,
        overvote: OvervotePolicy::SkipRank,
        skipped_ranks: SkippedRankPolicy::ExhaustOnTwo,
    };
    let n = normalize_ballot(b, &options);
    assert_eq!(
        vec![
            Choice::Vote(CandidateId(0)),
            Choice::Undervote,
            Choice::Vote(CandidateId(1))
        ],
        n.choices
    );
}
