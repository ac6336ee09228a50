//! The contest report: tabulation rounds, pairwise analysis, the winner, and
//! the compact index entries built from reports.

use vstd::prelude::*;

use crate::condorcet::{condorcet_winner, pairwise_matrix, pref_count, spec_condorcet_winner};
use crate::metadata::TabulationOptions;
use crate::model::{choices_in_range, Candidate, CandidateId, CandidateType, NormalizedBallot};
use crate::sums::weight_sum;
use crate::tabulator::{
    appears_in, cand_lines, dropped_votes, from_in_suffix, tabulate, top_filter, transfer_weight,
    vote_weight, votes_for, votes_sorted, Allocatee, TabulatorRound, TabulatorState,
};
use crate::model::Choice;

verus! {

/// Identifying details of one contest.
#[derive(Clone, PartialEq, Eq, Debug)]
pub struct ContestInfo {
    pub office: String,
    pub office_name: String,
    pub name: String,
    pub date: String,
    pub jurisdiction_path: String,
    pub election_path: String,
    pub jurisdiction_name: String,
    pub election_name: String,
}

/// A contest ready for tabulation: its info, candidate table, normalized
/// ballots, and tabulation options.
pub struct ElectionPreprocessed {
    pub info: ContestInfo,
    pub candidates: Vec<Candidate>,
    pub ballots: Vec<NormalizedBallot>,
    pub tabulation_options: TabulationOptions,
}

/// The full per-contest report.
pub struct ContestReport {
    pub info: ContestInfo,
    pub winner: Option<CandidateId>,
    pub num_candidates: u32,
    pub candidates: Vec<Candidate>,
    pub rounds: Vec<TabulatorRound>,
    pub condorcet: Option<CandidateId>,
    pub pairwise_matrix: Vec<Vec<u32>>,
}

/// The compact per-contest entry of the global index.
#[derive(Clone, PartialEq, Eq, Debug)]
pub struct ContestIndexEntry {
    pub office: String,
    pub office_name: String,
    pub name: String,
    pub winner: String,
    pub num_candidates: u32,
    pub num_rounds: u32,
    pub condorcet_winner: Option<String>,
    pub has_non_condorcet_winner: bool,
}

/// One election of the global index.
#[derive(Clone, PartialEq, Eq, Debug)]
pub struct ElectionIndexEntry {
    pub path: String,
    pub jurisdiction_name: String,
    pub election_name: String,
    pub date: String,
    pub contests: Vec<ContestIndexEntry>,
}

/// The global index over all processed contests.
pub struct ReportIndex {
    pub elections: Vec<ElectionIndexEntry>,
}

/// Candidates that count toward the headline candidate number: everyone but
/// plain write-ins.
pub open spec fn count_headline(cands: Seq<Candidate>) -> int
    decreases cands.len(),
{
    if cands.len() == 0 {
        0
    } else {
        count_headline(cands.drop_last()) + (if cands.last().kind == CandidateType::WriteIn {
            0int
        } else {
            1int
        })
    }
}

/// The winner a finished round list names: the top allocatee of the final
/// round, when it is a candidate.
pub open spec fn spec_winner(rounds: Seq<TabulatorRound>) -> Option<CandidateId> {
    if rounds.len() == 0 {
        None
    } else {
        let a = rounds.last().allocations@;
        if a.len() == 0 {
            None
        } else {
            match a[0].allocatee {
                Allocatee::Candidate(c) => Some(c),
                Allocatee::Exhausted => None,
            }
        }
    }
}

/// Reads the winner off a finished round list.
pub fn winner_of_rounds(rounds: &Vec<TabulatorRound>) -> (r: Option<CandidateId>)
    ensures
        r == spec_winner(rounds@),
{
    if rounds.len() == 0 {
        return None;
    }
    let last = &rounds[rounds.len() - 1];
    proof {
        assert(rounds@.last() == rounds@[rounds@.len() - 1]);
    }
    if last.allocations.len() == 0 {
        return None;
    }
    match last.allocations[0].allocatee {
        Allocatee::Candidate(c) => Some(c),
        Allocatee::Exhausted => None,
    }
}

/// Counts the candidates that enter the headline number.
fn count_headline_exec(cands: &Vec<Candidate>) -> (r: u32)
    requires
        cands@.len() <= u32::MAX,
    ensures
        r as int == count_headline(cands@),
{
    let mut count: u32 = 0;
    let mut i: usize = 0;
    while i < cands.len()
        invariant
            i <= cands@.len(),
            cands@.len() <= u32::MAX,
            count as int == count_headline(cands@.take(i as int)),
            count as int <= i as int,
        decreases cands@.len() - i,
    {
        proof {
            assert(cands@.take(i as int + 1).drop_last() =~= cands@.take(i as int));
            assert(cands@.take(i as int + 1).last() == cands@[i as int]);
        }
        let is_writein = match cands[i].kind {
            CandidateType::WriteIn => true,
            _ => false,
        };
        if !is_writein {
            count = count + 1;
        }
        i = i + 1;
    }
    proof {
        assert(cands@.take(cands@.len() as int) =~= cands@);
    }
    count
}

/// Builds the contest report: runs the pairwise analysis and the tabulator
/// and assembles their outputs.
pub fn generate_report(preprocessed: ElectionPreprocessed) -> (r: ContestReport)
    requires
        preprocessed.ballots@.len() <= u32::MAX,
        preprocessed.candidates@.len() <= u32::MAX,
        forall|i: int|
            0 <= i < preprocessed.ballots@.len() ==> choices_in_range(
                #[trigger] preprocessed.ballots@[i].choices@,
                u32::MAX as int,
            ),
    ensures
        r.info == preprocessed.info,
        r.candidates == preprocessed.candidates,
        r.num_candidates as int == count_headline(preprocessed.candidates@),
        r.pairwise_matrix@.len() == preprocessed.candidates@.len(),
        forall|i: int|
            0 <= i < r.pairwise_matrix@.len() ==> (#[trigger] r.pairwise_matrix@[i])@.len()
                == preprocessed.candidates@.len(),
        forall|i: int, j: int|
            0 <= i < r.pairwise_matrix@.len() && 0 <= j < r.pairwise_matrix@.len()
                ==> (#[trigger] r.pairwise_matrix@[i]@[j]) as int == pref_count(
                preprocessed.ballots@,
                CandidateId(i as u32),
                CandidateId(j as u32),
            ),
        match r.condorcet {
            Some(c) => (c.0 as int) < r.pairwise_matrix@.len() && spec_condorcet_winner(
                r.pairwise_matrix@,
                c.0 as int,
            ),
            None => forall|i: int|
                0 <= i < r.pairwise_matrix@.len() ==> !#[trigger] spec_condorcet_winner(
                    r.pairwise_matrix@,
                    i,
                ),
        },
        r.rounds@.len() >= 1,
        r.rounds@.len() <= 1001,
        forall|k: int|
            0 <= k < r.rounds@.len() ==> (#[trigger] r.rounds@[k]).continuing_ballots as int
                + r.rounds@[k].undervote as int + r.rounds@[k].overvote as int
                == preprocessed.ballots@.len(),
        forall|k: int|
            0 <= k < r.rounds@.len() ==> {
                let a = (#[trigger] r.rounds@[k]).allocations@;
                &&& a.len() >= 1
                &&& a[a.len() - 1].allocatee == Allocatee::Exhausted
                &&& a[a.len() - 1].votes as int == (if preprocessed.tabulation_options.spec_nyc()
                    && k == 0 {
                    0int
                } else {
                    r.rounds@[k].undervote as int + r.rounds@[k].overvote as int
                })
                &&& forall|i: int| 0 <= i < a.len() - 1 ==> (#[trigger] a[i].allocatee) is Candidate
                &&& votes_sorted(cand_lines(a))
            },
        forall|k: int|
            0 <= k < r.rounds@.len() ==> weight_sum(
                cand_lines((#[trigger] r.rounds@[k]).allocations@),
                vote_weight(),
            ) == r.rounds@[k].continuing_ballots as int,
        r.rounds@[0].transfers@.len() == 0,
        forall|c: CandidateId|
            #[trigger] votes_for(r.rounds@[0].allocations@, c) == top_filter(
                preprocessed.ballots@,
                Choice::Vote(c),
            ).len(),
        r.rounds@[0].undervote as int == top_filter(
            preprocessed.ballots@,
            Choice::Undervote,
        ).len(),
        r.rounds@[0].overvote as int == top_filter(preprocessed.ballots@, Choice::Overvote).len(),
        forall|k: int, c: CandidateId|
            0 <= k < r.rounds@.len() - 1 && #[trigger] appears_in(r.rounds@[k].allocations@, c)
                && #[trigger] appears_in(r.rounds@[k + 1].allocations@, c) ==> votes_for(
                r.rounds@[k + 1].allocations@,
                c,
            ) >= votes_for(r.rounds@[k].allocations@, c),
        forall|k: int, j: int, c: CandidateId|
            0 <= k && k + 1 <= j < r.rounds@.len() && #[trigger] appears_in(
                r.rounds@[k].allocations@,
                c,
            ) && !appears_in(r.rounds@[k + 1].allocations@, c) ==> !#[trigger] appears_in(
                r.rounds@[j].allocations@,
                c,
            ),
        forall|k: int|
            1 <= k < r.rounds@.len() ==> weight_sum(
                (#[trigger] r.rounds@[k]).transfers@,
                transfer_weight(),
            ) == dropped_votes(r.rounds@[k - 1].allocations@, r.rounds@[k].allocations@),
        forall|k: int|
            0 <= k < r.rounds@.len() - 1 ==> (#[trigger] r.rounds@[k + 1]).undervote
                >= r.rounds@[k].undervote && r.rounds@[k + 1].overvote >= r.rounds@[k].overvote,
        forall|k: int|
            0 <= k < r.rounds@.len() - 1 ==> {
                let sv = cand_lines((#[trigger] r.rounds@[k]).allocations@);
                let es = TabulatorState::spec_elim_start(sv);
                forall|q: int|
                    0 <= q < sv.len() ==> (#[trigger] appears_in(
                        r.rounds@[k + 1].allocations@,
                        sv[q].0,
                    ) <==> q < es)
            },
        forall|k: int, j: int|
            1 <= k < r.rounds@.len() && 0 <= j < r.rounds@[k].transfers@.len()
                ==> from_in_suffix(
                cand_lines(r.rounds@[k - 1].allocations@),
                TabulatorState::spec_elim_start(cand_lines(r.rounds@[k - 1].allocations@)),
                (#[trigger] r.rounds@[k].transfers@[j]).from,
            ),
        forall|k: int, i: int|
            0 <= k < r.rounds@.len() && 0 <= i < r.rounds@[k].allocations@.len() - 1
                ==> (#[trigger] r.rounds@[k].allocations@[i]).votes >= 1,
        forall|k: int| 1 <= k < r.rounds@.len() ==> (#[trigger] r.rounds@[k]).transfers@.len() >= 1,
        r.winner == spec_winner(r.rounds@),
{
    let n = preprocessed.candidates.len();
    let matrix = pairwise_matrix(&preprocessed.ballots, n);
    let condorcet = condorcet_winner(&matrix);
    let num_candidates = count_headline_exec(&preprocessed.candidates);
    let rounds = tabulate(preprocessed.ballots, &preprocessed.tabulation_options);
    let winner = winner_of_rounds(&rounds);
    ContestReport {
        info: preprocessed.info,
        winner,
        num_candidates,
        candidates: preprocessed.candidates,
        rounds,
        condorcet,
        pairwise_matrix: matrix,
    }
}

impl ContestReport {
    /// The winning candidate, when the final round names one.
    pub fn winner(&self) -> (r: Option<Candidate>)
        requires
            match self.winner {
                Some(c) => (c.0 as int) < self.candidates@.len(),
                None => true,
            },
        ensures
            match self.winner {
                Some(c) => r == Some(self.candidates@[c.0 as int]),
                None => r is None,
            },
    {
        match self.winner {
            Some(c) => Some(self.candidates[c.0 as usize].duplicate()),
            None => None,
        }
    }

    /// The compact index entry of this report: names resolved, plus the
    /// anomaly flag for a Condorcet winner that instant-runoff rejected.
    pub fn index_entry(&self) -> (e: ContestIndexEntry)
        requires
            self.rounds@.len() <= u32::MAX,
            match self.winner {
                Some(c) => (c.0 as int) < self.candidates@.len(),
                None => true,
            },
            match self.condorcet {
                Some(c) => (c.0 as int) < self.candidates@.len(),
                None => true,
            },
        ensures
            e.office@ == self.info.office@,
            e.office_name@ == self.info.office_name@,
            e.name@ == self.info.name@,
            e.num_candidates == self.num_candidates,
            e.num_rounds as int == self.rounds@.len(),
            match self.winner {
                Some(c) => e.winner@ == self.candidates@[c.0 as int].name@,
                None => e.winner@ == "No Winner"@,
            },
            match self.condorcet {
                Some(c) => match e.condorcet_winner {
                    Some(nm) => nm@ == self.candidates@[c.0 as int].name@,
                    None => false,
                },
                None => e.condorcet_winner is None,
            },
            e.has_non_condorcet_winner == (self.condorcet is Some && self.condorcet != self.winner),
    {
        let winner_name: String = match self.winner {
            Some(c) => self.candidates[c.0 as usize].name.clone(),
            None => String::from_str("No Winner"),
        };
        let condorcet_winner_name: Option<String> = match self.condorcet {
            Some(c) => Some(self.candidates[c.0 as usize].name.clone()),
            None => None,
        };
        let has_non_condorcet_winner = match (self.condorcet, self.winner) {
            (Some(c), Some(w)) => c.0 != w.0,
            (Some(_), None) => true,
            (None, _) => false,
        };
        ContestIndexEntry {
            office: self.info.office.clone(),
            office_name: self.info.office_name.clone(),
            name: self.info.name.clone(),
            winner: winner_name,
            num_candidates: self.num_candidates,
            num_rounds: self.rounds.len() as u32,
            condorcet_winner: condorcet_winner_name,
            has_non_condorcet_winner,
        }
    }
}

/// Lexicographic order on strings by character value (the order UTF-8 byte
/// comparison realizes).
pub open spec fn chars_le(a: Seq<char>, b: Seq<char>) -> bool
    decreases a.len(),
{
    if a.len() == 0 {
        true
    } else if b.len() == 0 {
        false
    } else if a[0] != b[0] {
        a[0] < b[0]
    } else {
        chars_le(a.drop_first(), b.drop_first())
    }
}

pub proof fn lemma_chars_le_total(a: Seq<char>, b: Seq<char>)
    ensures
        chars_le(a, b) || chars_le(b, a),
    decreases a.len(),
{
    if a.len() > 0 && b.len() > 0 && a[0] == b[0] {
        lemma_chars_le_total(a.drop_first(), b.drop_first());
    }
}

pub proof fn lemma_chars_le_antisymmetric(a: Seq<char>, b: Seq<char>)
    requires
        chars_le(a, b),
        chars_le(b, a),
    ensures
        a == b,
    decreases a.len(),
{
    if a.len() == 0 {
        assert(b.len() == 0);
        assert(a =~= b);
    } else {
        assert(b.len() > 0);
        assert(a[0] == b[0]);
        lemma_chars_le_antisymmetric(a.drop_first(), b.drop_first());
        assert(a =~= seq![a[0]] + a.drop_first());
        assert(b =~= seq![b[0]] + b.drop_first());
    }
}

pub proof fn lemma_chars_le_transitive(a: Seq<char>, b: Seq<char>, c: Seq<char>)
    requires
        chars_le(a, b),
        chars_le(b, c),
    ensures
        chars_le(a, c),
    decreases a.len(),
{
    if a.len() > 0 && b.len() > 0 && c.len() > 0 {
        if a[0] == b[0] && b[0] == c[0] {
            lemma_chars_le_transitive(a.drop_first(), b.drop_first(), c.drop_first());
        }
    }
}

/// Decides `chars_le` on two strings.
#[verifier::loop_isolation(false)]
pub fn str_le(a: &str, b: &str) -> (r: bool)
    ensures
        r == chars_le(a@, b@),
{
    let na = a.unicode_len();
    let nb = b.unicode_len();
    let mut i: usize = 0;
    proof {
        assert(a@.skip(0) =~= a@);
        assert(b@.skip(0) =~= b@);
    }
    while i < na && i < nb
        invariant
            i <= na,
            i <= nb,
            na == a@.len(),
            nb == b@.len(),
            chars_le(a@, b@) == chars_le(a@.skip(i as int), b@.skip(i as int)),
            chars_le(b@, a@) == chars_le(b@.skip(i as int), a@.skip(i as int)),
        decreases na - i,
    {
        let ca = a.get_char(i);
        let cb = b.get_char(i);
        proof {
            assert(a@.skip(i as int)[0] == a@[i as int]);
            assert(b@.skip(i as int)[0] == b@[i as int]);
            assert(a@.skip(i as int).drop_first() =~= a@.skip(i as int + 1));
            assert(b@.skip(i as int).drop_first() =~= b@.skip(i as int + 1));
        }
        if ca != cb {
            return ca < cb;
        }
        i = i + 1;
    }
    proof {
        if i == na {
            assert(a@.skip(i as int).len() == 0);
        } else {
            assert(b@.skip(i as int).len() == 0);
            assert(a@.skip(i as int).len() > 0);
        }
    }
    na <= nb
}

/// The index order on contests: ascending by office name.
pub open spec fn contest_order_le(a: ContestIndexEntry, b: ContestIndexEntry) -> bool {
    chars_le(a.office_name@, b.office_name@)
}

/// The index order on elections: descending by date, then by path.
pub open spec fn election_order_le(a: ElectionIndexEntry, b: ElectionIndexEntry) -> bool {
    if a.date@ == b.date@ {
        chars_le(b.path@, a.path@)
    } else {
        chars_le(b.date@, a.date@)
    }
}

pub proof fn lemma_contest_order_total(a: ContestIndexEntry, b: ContestIndexEntry)
    ensures
        contest_order_le(a, b) || contest_order_le(b, a),
{
    lemma_chars_le_total(a.office_name@, b.office_name@);
}

pub proof fn lemma_contest_order_transitive(
    a: ContestIndexEntry,
    b: ContestIndexEntry,
    c: ContestIndexEntry,
)
    requires
        contest_order_le(a, b),
        contest_order_le(b, c),
    ensures
        contest_order_le(a, c),
{
    lemma_chars_le_transitive(a.office_name@, b.office_name@, c.office_name@);
}

pub proof fn lemma_election_order_total(a: ElectionIndexEntry, b: ElectionIndexEntry)
    ensures
        election_order_le(a, b) || election_order_le(b, a),
{
    if a.date@ == b.date@ {
        lemma_chars_le_total(b.path@, a.path@);
    } else {
        lemma_chars_le_total(b.date@, a.date@);
    }
}

pub proof fn lemma_election_order_transitive(
    a: ElectionIndexEntry,
    b: ElectionIndexEntry,
    c: ElectionIndexEntry,
)
    requires
        election_order_le(a, b),
        election_order_le(b, c),
    ensures
        election_order_le(a, c),
{
    if a.date@ == b.date@ && b.date@ == c.date@ {
        lemma_chars_le_transitive(c.path@, b.path@, a.path@);
    } else if a.date@ == b.date@ {
    } else if b.date@ == c.date@ {
    } else {
        lemma_chars_le_transitive(c.date@, b.date@, a.date@);
        if a.date@ == c.date@ {
            lemma_chars_le_antisymmetric(b.date@, a.date@);
        }
    }
}

/// Sorts the contests of one election by office name, as the index reports
/// them.
#[verifier::loop_isolation(false)]
pub fn sort_contest_entries(entries: Vec<ContestIndexEntry>) -> (r: Vec<ContestIndexEntry>)
    ensures
        r@.to_multiset() == entries@.to_multiset(),
        r@.len() == entries@.len(),
        forall|i: int, j: int| 0 <= i < j < r@.len() ==> #[trigger] contest_order_le(r@[i], r@[j]),
{
    broadcast use vstd::seq_lib::group_to_multiset_ensures;

    let ghost orig = entries@;
    let mut rest = entries;
    let mut sorted: Vec<ContestIndexEntry> = Vec::new();
    proof {
        assert(sorted@.to_multiset().add(rest@.to_multiset()) =~= orig.to_multiset());
    }
    while rest.len() > 0
        invariant
            sorted@.to_multiset().add(rest@.to_multiset()) == orig.to_multiset(),
            sorted@.len() + rest@.len() == orig.len(),
            forall|i: int, j: int|
                0 <= i < j < sorted@.len() ==> #[trigger] contest_order_le(sorted@[i], sorted@[j]),
            forall|i: int, j: int|
                0 <= i < sorted@.len() && 0 <= j < rest@.len() ==> #[trigger] contest_order_le(
                    sorted@[i],
                    rest@[j],
                ),
        decreases rest.len(),
    {
        proof {
            lemma_contest_order_total(rest@[0], rest@[0]);
        }
        let mut m: usize = 0;
        let mut k: usize = 1;
        while k < rest.len()
            invariant
                0 < rest@.len(),
                m < k <= rest@.len(),
                forall|i: int|
                    0 <= i < k ==> #[trigger] contest_order_le(rest@[m as int], rest@[i]),
            decreases rest@.len() - k,
        {
            let le_km = str_le(rest[k].office_name.as_str(), rest[m].office_name.as_str());
            let le_mk = str_le(rest[m].office_name.as_str(), rest[k].office_name.as_str());
            if le_km && !le_mk {
                proof {
                    assert forall|i: int| 0 <= i <= k as int implies contest_order_le(
                        rest@[k as int],
                        rest@[i],
                    ) by {
                        if i < k as int {
                            assert(contest_order_le(rest@[m as int], rest@[i]));
                            lemma_contest_order_transitive(
                                rest@[k as int],
                                rest@[m as int],
                                rest@[i],
                            );
                        } else {
                            lemma_contest_order_total(rest@[k as int], rest@[k as int]);
                        }
                    }
                }
                m = k;
            } else {
                proof {
                    if !le_km {
                        lemma_contest_order_total(rest@[m as int], rest@[k as int]);
                    }
                    assert(contest_order_le(rest@[m as int], rest@[k as int]));
                }
            }
            k = k + 1;
        }
        let ghost rest_old = rest@;
        let ghost sorted_old = sorted@;
        let x = rest.remove(m);
        sorted.push(x);
        proof {
            rest_old.to_multiset_ensures();
            sorted_old.to_multiset_ensures();
            assert(rest@ == rest_old.remove(m as int));
            assert(rest_old.contains(x));
            assert(rest_old.remove(m as int).to_multiset() =~= rest_old.to_multiset().remove(
                rest_old[m as int],
            ));
            assert(sorted_old.push(x).to_multiset() =~= sorted_old.to_multiset().insert(x));
            assert(sorted@.to_multiset().add(rest@.to_multiset()) =~= orig.to_multiset());
            assert forall|i: int, j: int|
                0 <= i < sorted@.len() && 0 <= j < rest@.len() implies #[trigger] contest_order_le(
                sorted@[i],
                rest@[j],
            ) by {
                if i < sorted_old.len() {
                    if j < m {
                        assert(rest@[j] == rest_old[j]);
                    } else {
                        assert(rest@[j] == rest_old[j + 1]);
                    }
                } else {
                    assert(sorted@[i] == x);
                    if j < m {
                        assert(contest_order_le(rest_old[m as int], rest_old[j]));
                    } else {
                        assert(contest_order_le(rest_old[m as int], rest_old[j + 1]));
                    }
                }
            }
        }
    }
    proof {
        assert(rest@.to_multiset().len() == 0);
        assert(sorted@.to_multiset().add(rest@.to_multiset()) =~= sorted@.to_multiset());
    }
    sorted
}

/// Sorts the global index's elections: most recent date first, paths
/// descending within a date.
#[verifier::loop_isolation(false)]
pub fn sort_election_entries(entries: Vec<ElectionIndexEntry>) -> (r: Vec<ElectionIndexEntry>)
    ensures
        r@.to_multiset() == entries@.to_multiset(),
        r@.len() == entries@.len(),
        forall|i: int, j: int| 0 <= i < j < r@.len() ==> #[trigger] election_order_le(r@[i], r@[j]),
{
    broadcast use vstd::seq_lib::group_to_multiset_ensures;

    let ghost orig = entries@;
    let mut rest = entries;
    let mut sorted: Vec<ElectionIndexEntry> = Vec::new();
    proof {
        assert(sorted@.to_multiset().add(rest@.to_multiset()) =~= orig.to_multiset());
    }
    while rest.len() > 0
        invariant
            sorted@.to_multiset().add(rest@.to_multiset()) == orig.to_multiset(),
            sorted@.len() + rest@.len() == orig.len(),
            forall|i: int, j: int|
                0 <= i < j < sorted@.len() ==> #[trigger] election_order_le(sorted@[i], sorted@[j]),
            forall|i: int, j: int|
                0 <= i < sorted@.len() && 0 <= j < rest@.len() ==> #[trigger] election_order_le(
                    sorted@[i],
                    rest@[j],
                ),
        decreases rest.len(),
    {
        proof {
            lemma_election_order_total(rest@[0], rest@[0]);
        }
        let mut m: usize = 0;
        let mut k: usize = 1;
        while k < rest.len()
            invariant
                0 < rest@.len(),
                m < k <= rest@.len(),
                forall|i: int|
                    0 <= i < k ==> #[trigger] election_order_le(rest@[m as int], rest@[i]),
            decreases rest@.len() - k,
        {
            let before = election_entry_before(&rest[k], &rest[m]);
            if before {
                proof {
                    assert forall|i: int| 0 <= i <= k as int implies election_order_le(
                        rest@[k as int],
                        rest@[i],
                    ) by {
                        if i < k as int {
                            assert(election_order_le(rest@[m as int], rest@[i]));
                            lemma_election_order_transitive(
                                rest@[k as int],
                                rest@[m as int],
                                rest@[i],
                            );
                        } else {
                            lemma_election_order_total(rest@[k as int], rest@[k as int]);
                        }
                    }
                }
                m = k;
            } else {
                proof {
                    lemma_election_order_total(rest@[m as int], rest@[k as int]);
                }
            }
            k = k + 1;
        }
        let ghost rest_old = rest@;
        let ghost sorted_old = sorted@;
        let x = rest.remove(m);
        sorted.push(x);
        proof {
            rest_old.to_multiset_ensures();
            sorted_old.to_multiset_ensures();
            assert(rest@ == rest_old.remove(m as int));
            assert(rest_old.contains(x));
            assert(rest_old.remove(m as int).to_multiset() =~= rest_old.to_multiset().remove(
                rest_old[m as int],
            ));
            assert(sorted_old.push(x).to_multiset() =~= sorted_old.to_multiset().insert(x));
            assert(sorted@.to_multiset().add(rest@.to_multiset()) =~= orig.to_multiset());
            assert forall|i: int, j: int|
                0 <= i < sorted@.len() && 0 <= j < rest@.len() implies #[trigger] election_order_le(
                sorted@[i],
                rest@[j],
            ) by {
                if i < sorted_old.len() {
                    if j < m {
                        assert(rest@[j] == rest_old[j]);
                    } else {
                        assert(rest@[j] == rest_old[j + 1]);
                    }
                } else {
                    assert(sorted@[i] == x);
                    if j < m {
                        assert(election_order_le(rest_old[m as int], rest_old[j]));
                    } else {
                        assert(election_order_le(rest_old[m as int], rest_old[j + 1]));
                    }
                }
            }
        }
    }
    proof {
        assert(rest@.to_multiset().len() == 0);
        assert(sorted@.to_multiset().add(rest@.to_multiset()) =~= sorted@.to_multiset());
    }
    sorted
}

/// Whether `a` sorts strictly before `b` in the election index.
fn election_entry_before(a: &ElectionIndexEntry, b: &ElectionIndexEntry) -> (r: bool)
    ensures
        r == (election_order_le(*a, *b) && !election_order_le(*b, *a)),
{
    let dates_equal = a.date == b.date;
    if dates_equal {
        let le_ab = str_le(b.path.as_str(), a.path.as_str());
        let le_ba = str_le(a.path.as_str(), b.path.as_str());
        le_ab && !le_ba
    } else {
        let le_ab = str_le(b.date.as_str(), a.date.as_str());
        let le_ba = str_le(a.date.as_str(), b.date.as_str());
        proof {
            if le_ab && le_ba {
                lemma_chars_le_antisymmetric(b.date@, a.date@);
            }
        }
        le_ab
    }
}

} // verus!
