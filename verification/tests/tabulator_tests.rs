use ranked_vote::metadata::TabulationOptions;
use ranked_vote::model::{CandidateId, Choice, NormalizedBallot};
use ranked_vote::tabulator::{tabulate, Allocatee, TabulatorRound, Transfer};

fn ballot(tag: u32, ids: &[u32]) -> NormalizedBallot {
    let choices: Vec<Choice> = ids.iter().map(|c| Choice::Vote(CandidateId(*c))).collect();
    NormalizedBallot::new(format!("b{}", tag), choices)
}

fn repeat(n: u32, ids: &[u32], out: &mut Vec<NormalizedBallot>) {
    for _ in 0..n {
        let tag = out.len() as u32;
        out.push(ballot(tag, ids));
    }
}

fn votes_of(round: &TabulatorRound, id: u32) -> Option<u32> {
    for a in &round.allocations {
        if a.allocatee == Allocatee::Candidate(CandidateId(id)) {
            return Some(a.votes);
        }
    }
    None
}

fn exhausted_of(round: &TabulatorRound) -> u32 {
    round.allocations.last().unwrap().votes
}

fn check_conservation(rounds: &Vec<TabulatorRound>, total: u32) {
    for r in rounds {
        assert_eq!(
            total,
            r.continuing_ballots + r.undervote + r.overvote,
            "round conservation"
        );
    }
}

#[test]
fn test_trivial_majority() {
    // A leads outright; one elimination reduces the field to two.
    let mut ballots = Vec::new();
    repeat(6, &[0, 1, 2], &mut ballots);
    repeat(3, &[1, 0, 2], &mut ballots);
    repeat(1, &[2, 0, 1], &mut ballots);
    let opts = TabulationOptions { nyc_style: None };
    let rounds = tabulate(ballots, &opts);
    assert_eq!(2, rounds.len());
    assert_eq!(Some(6), votes_of(&rounds[0], 0));
    assert_eq!(Some(3), votes_of(&rounds[0], 1));
    assert_eq!(Some(1), votes_of(&rounds[0], 2));
    assert_eq!(Some(7), votes_of(&rounds[1], 0));
    assert_eq!(Some(3), votes_of(&rounds[1], 1));
    assert_eq!(None, votes_of(&rounds[1], 2));
    // The leading allocatee of the final round is the winner.
    assert_eq!(
        Allocatee::Candidate(CandidateId(0)),
        rounds[1].allocations[0].allocatee
    );
    check_conservation(&rounds, 10);
}

#[test]
fn test_irv_flip() {
    // B is eliminated first and its ballots flip the race to C.
    let mut ballots = Vec::new();
    repeat(4, &[0], &mut ballots);
    repeat(3, &[1, 2], &mut ballots);
    repeat(4, &[2, 1], &mut ballots);
    let opts = TabulationOptions { nyc_style: None };
    let rounds = tabulate(ballots, &opts);
    assert_eq!(2, rounds.len());
    assert_eq!(Some(4), votes_of(&rounds[0], 0));
    assert_eq!(Some(3), votes_of(&rounds[0], 1));
    assert_eq!(Some(4), votes_of(&rounds[0], 2));
    assert_eq!(Some(4), votes_of(&rounds[1], 0));
    assert_eq!(None, votes_of(&rounds[1], 1));
    assert_eq!(Some(7), votes_of(&rounds[1], 2));
    assert_eq!(
        Allocatee::Candidate(CandidateId(2)),
        rounds[1].allocations[0].allocatee
    );
    // The transfer record accounts for B's three ballots.
    assert_eq!(
        vec![Transfer {
            from: CandidateId(1),
            to: Allocatee::Candidate(CandidateId(2)),
            count: 3
        }],
        rounds[1].transfers
    );
    check_conservation(&rounds, 11);
}

#[test]
fn test_tie_elimination() {
    // A perfect three-way tie eliminates exactly the last sorted candidate.
    let mut ballots = Vec::new();
    repeat(5, &[0], &mut ballots);
    repeat(5, &[1], &mut ballots);
    repeat(5, &[2], &mut ballots);
    let opts = TabulationOptions { nyc_style: None };
    let rounds = tabulate(ballots, &opts);
    assert_eq!(2, rounds.len());
    assert_eq!(4, rounds[0].allocations.len());
    assert_eq!(3, rounds[1].allocations.len());
    assert_eq!(Some(5), votes_of(&rounds[1], 0));
    assert_eq!(Some(5), votes_of(&rounds[1], 1));
    assert_eq!(None, votes_of(&rounds[1], 2));
    assert_eq!(5, exhausted_of(&rounds[1]));
    // The eliminated candidate's ballots all exhaust in one record.
    assert_eq!(
        vec![Transfer { from: CandidateId(2), to: Allocatee::Exhausted, count: 5 }],
        rounds[1].transfers
    );
    check_conservation(&rounds, 15);
}

#[test]
fn test_nyc_round_zero_rule() {
    // Under the NYC-style rule, round zero reports no exhausted ballots;
    // later rounds count the undervote pile.
    let mut ballots = Vec::new();
    for i in 0..100u32 {
        ballots.push(NormalizedBallot::new(format!("u{}", i), Vec::new()));
    }
    repeat(200, &[0], &mut ballots);
    repeat(150, &[1], &mut ballots);
    repeat(50, &[2], &mut ballots);
    let opts = TabulationOptions { nyc_style: Some(true) };
    let rounds = tabulate(ballots, &opts);
    assert_eq!(2, rounds.len());
    assert_eq!(0, exhausted_of(&rounds[0]));
    assert_eq!(100, rounds[0].undervote);
    assert!(exhausted_of(&rounds[1]) >= 100);
    assert_eq!(150, exhausted_of(&rounds[1]));
    check_conservation(&rounds, 500);
}

#[test]
fn test_monotone_and_no_resurrection() {
    // Surviving candidates never lose votes, and eliminated candidates never
    // return.
    let mut ballots = Vec::new();
    repeat(4, &[0, 1], &mut ballots);
    repeat(4, &[1, 0], &mut ballots);
    repeat(3, &[2, 0], &mut ballots);
    repeat(2, &[3, 1], &mut ballots);
    let opts = TabulationOptions { nyc_style: None };
    let rounds = tabulate(ballots, &opts);
    for w in rounds.windows(2) {
        for c in 0..4u32 {
            if let (Some(prev), Some(next)) = (votes_of(&w[0], c), votes_of(&w[1], c)) {
                assert!(next >= prev, "candidate {} lost votes", c);
            }
            if votes_of(&w[0], c).is_some() && votes_of(&w[1], c).is_none() {
                for later in rounds.iter().skip(1) {
                    if later.allocations.len() < w[0].allocations.len() {
                        assert_eq!(None, votes_of(later, c));
                    }
                }
            }
        }
    }
    check_conservation(&rounds, 13);
}
