//! The NIST SP-1500 cast-vote-record model: session records from the CVR
//! export, candidate and contest manifests, and the per-contest mark
//! interpretation.

use vstd::prelude::*;

use crate::candidate_map::{spec_lookup, CandidateMap};
use crate::model::{CandidateId, Choice};

verus! {

/// The CVR export: every scanned session of a tabulator.
pub struct CvrExport {
    pub version: String,
    pub election_id: String,
    pub sessions: Vec<Session>,
}

/// One scanner session: the original ballot and an optional adjudicated
/// replacement.
pub struct Session {
    pub tabulator_id: u32,
    pub batch_id: u32,
    pub record_id: String,
    pub counting_group_id: u32,
    pub image_mask: String,
    pub original: SessionBallot,
    pub modified: Option<SessionBallot>,
}

/// A ballot as scanned, with contests either inline or per card.
pub struct SessionBallot {
    pub precinct_portion_id: u32,
    pub ballot_type_id: u32,
    pub is_current: bool,
    pub contests: Option<Vec<ContestMarks>>,
    pub cards: Option<Vec<Card>>,
}

/// One physical card of a ballot.
pub struct Card {
    pub id: u32,
    pub paper_index: u32,
    pub contests: Vec<ContestMarks>,
}

/// The marks recorded for one contest.
pub struct ContestMarks {
    pub id: u32,
    pub marks: Vec<Mark>,
}

/// One mark: a candidate at a 1-based rank.
#[derive(Clone, Copy, PartialEq, Eq, Structural, Debug)]
pub struct Mark {
    pub candidate_id: u32,
    pub party_id: Option<u32>,
    pub rank: u32,
    pub mark_density: u32,
    pub is_ambiguous: bool,
    pub is_vote: bool,
}

/// The candidate manifest.
pub struct CandidateManifest {
    pub version: String,
    pub list: Vec<Candidate>,
}

/// Candidate classification in the manifest.
#[derive(Clone, Copy, PartialEq, Eq, Structural, Debug)]
pub enum CandidateType {
    WriteIn,
    Regular,
    QualifiedWriteIn,
}

/// A candidate of the manifest.
pub struct Candidate {
    pub description: String,
    pub id: u32,
    pub external_id: Option<String>,
    pub contest_id: u32,
    pub candidate_type: CandidateType,
}

/// The contest manifest.
pub struct ContestManifest {
    pub version: String,
    pub list: Vec<Contest>,
}

/// A contest of the manifest.
pub struct Contest {
    pub description: String,
    pub id: Option<u32>,
    pub external_id: Option<String>,
    pub vote_for: u32,
    pub num_of_ranks: u32,
}

impl ContestMarks {
    /// An exact content copy.
    pub fn duplicate(&self) -> (r: ContestMarks)
        ensures
            r.id == self.id,
            r.marks@ == self.marks@,
    {
        let mut marks: Vec<Mark> = Vec::new();
        let mut i: usize = 0;
        while i < self.marks.len()
            invariant
                i <= self.marks@.len(),
                marks@ == self.marks@.take(i as int),
            decreases self.marks@.len() - i,
        {
            marks.push(self.marks[i]);
            proof {
                assert(self.marks@.take(i as int + 1) =~= self.marks@.take(i as int).push(
                    self.marks@[i as int],
                ));
            }
            i = i + 1;
        }
        proof {
            assert(self.marks@.take(self.marks@.len() as int) =~= self.marks@);
        }
        ContestMarks { id: self.id, marks }
    }
}

/// Content equality over contest-mark lists.
pub open spec fn contest_marks_eq(a: Seq<ContestMarks>, b: Seq<ContestMarks>) -> bool {
    a.len() == b.len() && forall|i: int|
        0 <= i < a.len() ==> (#[trigger] a[i]).id == b[i].id && a[i].marks@ == b[i].marks@
}

/// All contests of a card list, in card order.
pub open spec fn cards_contests(cards: Seq<Card>) -> Seq<ContestMarks>
    decreases cards.len(),
{
    if cards.len() == 0 {
        Seq::empty()
    } else {
        cards_contests(cards.drop_last()) + cards.last().contests@
    }
}

impl Session {
    /// The ballot that counts: the adjudicated replacement when present.
    pub fn ballot(&self) -> (r: &SessionBallot)
        ensures
            match self.modified {
                Some(_) => Some(*r) == self.modified,
                None => *r == self.original,
            },
    {
        match &self.modified {
            Some(ballot) => ballot,
            None => &self.original,
        }
    }

    /// All contest marks of this session: inline contests when present,
    /// otherwise the concatenation of the counting ballot's cards.
    pub fn contests(&self) -> (r: Vec<ContestMarks>)
        requires
            self.original.contests is Some || (match self.modified {
                Some(b) => b.cards is Some,
                None => self.original.cards is Some,
            }),
        ensures
            contest_marks_eq(
                r@,
                match self.original.contests {
                    Some(c) => c@,
                    None => match self.modified {
                        Some(b) => cards_contests(b.cards.unwrap()@),
                        None => cards_contests(self.original.cards.unwrap()@),
                    },
                },
            ),
    {
        match &self.original.contests {
            Some(c) => {
                let mut out: Vec<ContestMarks> = Vec::new();
                let mut i: usize = 0;
                while i < c.len()
                    invariant
                        i <= c@.len(),
                        out@.len() == i,
                        forall|k: int|
                            0 <= k < i ==> (#[trigger] out@[k]).id == c@[k].id && out@[k].marks@
                                == c@[k].marks@,
                    decreases c@.len() - i,
                {
                    out.push(c[i].duplicate());
                    i = i + 1;
                }
                out
            },
            None => {
                let b = self.ballot();
                let cards = match &b.cards {
                    Some(cards) => cards,
                    None => {
                        proof {
                            assert(false);
                        }
                        return Vec::new();
                    },
                };
                let ghost all = cards_contests(cards@);
                let mut out: Vec<ContestMarks> = Vec::new();
                let mut i: usize = 0;
                proof {
                    assert(cards_contests(cards@.take(0)) =~= Seq::<ContestMarks>::empty());
                }
                while i < cards.len()
                    invariant
                        i <= cards@.len(),
                        out@.len() == cards_contests(cards@.take(i as int)).len(),
                        contest_marks_eq(out@, cards_contests(cards@.take(i as int))),
                    decreases cards@.len() - i,
                {
                    let card = &cards[i];
                    let ghost before = out@;
                    let mut j: usize = 0;
                    while j < card.contests.len()
                        invariant
                            j <= card.contests@.len(),
                            out@.len() == before.len() + j,
                            forall|k: int|
                                0 <= k < before.len() ==> (#[trigger] out@[k]).id == before[k].id
                                    && out@[k].marks@ == before[k].marks@,
                            forall|k: int|
                                0 <= k < j ==> (#[trigger] out@[before.len() + k]).id
                                    == card.contests@[k].id && out@[before.len() + k].marks@
                                    == card.contests@[k].marks@,
                            card == cards@[i as int],
                        decreases card.contests@.len() - j,
                    {
                        out.push(card.contests[j].duplicate());
                        j = j + 1;
                    }
                    proof {
                        assert(cards@.take(i as int + 1).drop_last() =~= cards@.take(i as int));
                        assert(cards@.take(i as int + 1).last() == cards@[i as int]);
                        assert(cards_contests(cards@.take(i as int + 1)) == cards_contests(
                            cards@.take(i as int),
                        ) + cards@[i as int].contests@);
                        let nxt = cards_contests(cards@.take(i as int + 1));
                        assert forall|k: int| 0 <= k < out@.len() implies (#[trigger] out@[k]).id
                            == nxt[k].id && out@[k].marks@ == nxt[k].marks@ by {
                            if k < before.len() {
                                assert(nxt[k] == cards_contests(cards@.take(i as int))[k]);
                                assert(before[k].id == cards_contests(cards@.take(i as int))[k].id
                                    && before[k].marks@ == cards_contests(
                                    cards@.take(i as int),
                                )[k].marks@);
                            } else {
                                assert(nxt[k] == cards@[i as int].contests@[k - before.len()]);
                                let kk = k - before.len() as int;
                                assert(out@[before.len() + kk].id == cards@[i as int].contests@[kk].id
                                    && out@[before.len() + kk].marks@
                                    == cards@[i as int].contests@[kk].marks@);
                            }
                        }
                        assert(out@.len() == nxt.len());
                    }
                    i = i + 1;
                }
                proof {
                    assert(cards@.take(cards@.len() as int) =~= cards@);
                }
                out
            },
        }
    }
}

/// The non-ambiguous marks at one rank.
pub open spec fn rank_marks(marks: Seq<Mark>, r: u32) -> Seq<Mark>
    decreases marks.len(),
{
    if marks.len() == 0 {
        Seq::empty()
    } else {
        let p = rank_marks(marks.drop_last(), r);
        if !marks.last().is_ambiguous && marks.last().rank == r {
            p.push(marks.last())
        } else {
            p
        }
    }
}

/// The choice one rank of a contest's marks denotes: no mark is an
/// undervote, duplicate marks are an overvote, and a single mark votes for
/// its candidate (unknown candidate ids degrade to an undervote).
pub open spec fn spec_rank_choice(marks: Seq<Mark>, r: u32, map: CandidateMap<u32>) -> Choice {
    let rm = rank_marks(marks, r);
    if rm.len() == 0 {
        Choice::Undervote
    } else if rm.len() >= 2 {
        Choice::Overvote
    } else {
        match spec_lookup(map.pairs(), rm[0].candidate_id) {
            Some(id) => Choice::Vote(id),
            None => Choice::Undervote,
        }
    }
}

/// Collects one contest's marks into a ranked choice list, one choice per
/// rank from 1 to `num_ranks`.
#[verifier::loop_isolation(false)]
pub fn marks_to_choices(marks: &Vec<Mark>, num_ranks: u32, map: &CandidateMap<u32>) -> (r: Vec<
    Choice,
>)
    requires
        num_ranks < u32::MAX,
    ensures
        r@.len() == num_ranks,
        forall|k: int|
            0 <= k < num_ranks ==> #[trigger] r@[k] == spec_rank_choice(
                marks@,
                (k + 1) as u32,
                *map,
            ),
{
    let mut choices: Vec<Choice> = Vec::new();
    let mut rank: u32 = 1;
    while rank <= num_ranks
        invariant
            1 <= rank <= num_ranks + 1,
            choices@.len() == rank - 1,
            forall|k: int|
                0 <= k < rank - 1 ==> #[trigger] choices@[k] == spec_rank_choice(
                    marks@,
                    (k + 1) as u32,
                    *map,
                ),
        decreases num_ranks + 1 - rank,
    {
        let mut count: usize = 0;
        let mut first: Option<Mark> = None;
        let mut i: usize = 0;
        // counting below stays within the number of marks
        proof {
            assert(rank_marks(marks@.take(0), rank) =~= Seq::<Mark>::empty());
        }
        while i < marks.len()
            invariant
                i <= marks@.len(),
                count <= i,
                count == rank_marks(marks@.take(i as int), rank).len(),
                match first {
                    Some(m) => count >= 1 && m == rank_marks(marks@.take(i as int), rank)[0],
                    None => count == 0,
                },
            decreases marks@.len() - i,
        {
            let m = marks[i];
            proof {
                assert(marks@.take(i as int + 1).drop_last() =~= marks@.take(i as int));
                assert(marks@.take(i as int + 1).last() == marks@[i as int]);
            }
            if !m.is_ambiguous && m.rank == rank {
                if count == 0 {
                    first = Some(m);
                }
                count = count + 1;
                proof {
                    assert(rank_marks(marks@.take(i as int + 1), rank) == rank_marks(
                        marks@.take(i as int),
                        rank,
                    ).push(marks@[i as int]));
                }
            }
            i = i + 1;
        }
        proof {
            assert(marks@.take(marks@.len() as int) =~= marks@);
        }
        let choice = if count == 0 {
            Choice::Undervote
        } else if count >= 2 {
            Choice::Overvote
        } else {
            match first {
                Some(m) => {
                    let found = map.lookup(&m.candidate_id);
                    match found {
                        Some(id) => Choice::Vote(id),
                        None => Choice::Undervote,
                    }
                },
                None => {
                    proof {
                        assert(false);
                    }
                    Choice::Undervote
                },
            }
        };
        choices.push(choice);
        rank = rank + 1;
    }
    choices
}

} // verus!
