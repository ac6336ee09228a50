use ranked_vote::condorcet::{condorcet_winner, pairwise_matrix};
use ranked_vote::metadata::TabulationOptions;
use ranked_vote::model::{Candidate, CandidateId, CandidateType, Choice, NormalizedBallot};
use ranked_vote::report::{generate_report, ContestInfo, ElectionPreprocessed};

fn info() -> ContestInfo {
    ContestInfo {
        office: String::from("mayor"),
        office_name: String::from("Mayor"),
        name: String::from("General"),
        date: String::from("2021-11-02"),
        jurisdiction_path: String::from("us/xx/town"),
        election_path: String::from("2021-11"),
        jurisdiction_name: String::from("Town"),
        election_name: String::from("General"),
    }
}

fn candidates3() -> Vec<Candidate> {
    vec![
        Candidate::new(String::from("Alpha"), CandidateType::Regular),
        Candidate::new(String::from("Beta"), CandidateType::Regular),
        Candidate::new(String::from("Gamma"), CandidateType::Regular),
    ]
}

fn ballots_from(pattern: &[(&[u32], u32)]) -> Vec<NormalizedBallot> {
    let mut out = Vec::new();
    for (ids, n) in pattern {
        for _ in 0..*n {
            let choices: Vec<Choice> =
                ids.iter().map(|c| Choice::Vote(CandidateId(*c))).collect();
            out.push(NormalizedBallot::new(format!("b{}", out.len()), choices));
        }
    }
    out
}

#[test]
fn test_trivial_majority_report() {
    // A wins immediately and is also the Condorcet winner.
    let ballots = ballots_from(&[(&[0, 1, 2], 6), (&[1, 0, 2], 3), (&[2, 0, 1], 1)]);
    let pre = ElectionPreprocessed {
        info: info(),
        candidates: candidates3(),
        ballots,
        tabulation_options: TabulationOptions { nyc_style: None },
    };
    let report = generate_report(pre);
    assert_eq!(Some(CandidateId(0)), report.winner);
    assert_eq!(Some(CandidateId(0)), report.condorcet);
    assert_eq!(3, report.num_candidates);
    let entry = report.index_entry();
    assert_eq!("Alpha", entry.winner.as_str());
    assert_eq!(Some(String::from("Alpha")), entry.condorcet_winner);
    assert!(!entry.has_non_condorcet_winner);
}

#[test]
fn test_irv_flip_report() {
    // C wins after B's elimination and is the Condorcet winner.
    let ballots = ballots_from(&[(&[0], 4), (&[1, 2], 3), (&[2, 1], 4)]);
    let pre = ElectionPreprocessed {
        info: info(),
        candidates: candidates3(),
        ballots,
        tabulation_options: TabulationOptions { nyc_style: None },
    };
    let report = generate_report(pre);
    assert_eq!(Some(CandidateId(2)), report.winner);
    assert_eq!(Some(CandidateId(2)), report.condorcet);
    assert!(!report.index_entry().has_non_condorcet_winner);
}

#[test]
fn test_condorcet_disagrees_with_irv() {
    // Instant runoff eliminates C first and elects A, but C beats both
    // head to head.
    let ballots = ballots_from(&[(&[0, 2, 1], 4), (&[1, 2, 0], 4), (&[2, 0, 1], 3)]);
    let matrix = pairwise_matrix(&ballots, 3);
    assert_eq!(7, matrix[2][0]);
    assert_eq!(4, matrix[0][2]);
    assert_eq!(7, matrix[2][1]);
    assert_eq!(4, matrix[1][2]);
    assert_eq!(Some(CandidateId(2)), condorcet_winner(&matrix));
    let pre = ElectionPreprocessed {
        info: info(),
        candidates: candidates3(),
        ballots: ballots_from(&[(&[0, 2, 1], 4), (&[1, 2, 0], 4), (&[2, 0, 1], 3)]),
        tabulation_options: TabulationOptions { nyc_style: None },
    };
    let report = generate_report(pre);
    assert_eq!(Some(CandidateId(0)), report.winner);
    assert_eq!(Some(CandidateId(2)), report.condorcet);
    assert_eq!(2, report.rounds.len());
    let entry = report.index_entry();
    assert!(entry.has_non_condorcet_winner);
    assert_eq!("Alpha", entry.winner.as_str());
    assert_eq!(Some(String::from("Gamma")), entry.condorcet_winner);
    assert_eq!(2, entry.num_rounds);
}

#[test]
fn test_writein_excluded_from_headline_count() {
    let mut candidates = candidates3();
    candidates.push(Candidate::new(
        String::from("Undeclared Write-ins"),
        CandidateType::WriteIn,
    ));
    let ballots = ballots_from(&[(&[0], 2), (&[1], 1)]);
    let pre = ElectionPreprocessed {
        info: info(),
        candidates,
        ballots,
        tabulation_options: TabulationOptions { nyc_style: None },
    };
    let report = generate_report(pre);
    assert_eq!(3, report.num_candidates);
    assert_eq!(4, report.candidates.len());
}

#[test]
fn test_no_ballots_no_winner() {
    let pre = ElectionPreprocessed {
        info: info(),
        candidates: Vec::new(),
        ballots: Vec::new(),
        tabulation_options: TabulationOptions { nyc_style: None },
    };
    let report = generate_report(pre);
    assert_eq!(None, report.winner);
    assert_eq!(1, report.rounds.len());
    assert_eq!("No Winner", report.index_entry().winner.as_str());
}

#[test]
fn test_condorcet_cycle_has_no_winner() {
    // A perfect three-way preference cycle has no Condorcet winner.
    let ballots = ballots_from(&[(&[0, 1, 2], 1), (&[1, 2, 0], 1), (&[2, 0, 1], 1)]);
    let matrix = pairwise_matrix(&ballots, 3);
    assert_eq!(2, matrix[0][1]);
    assert_eq!(1, matrix[1][0]);
    assert_eq!(None, condorcet_winner(&matrix));
}
