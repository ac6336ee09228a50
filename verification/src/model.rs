//! Canonical ballot model: candidates, choices, ballots, normalized ballots,
//! and raw elections.

use vstd::prelude::*;

verus! {

/// Dense internal candidate index, assigned in the order candidates are first
/// encountered.
#[derive(Clone, Copy, PartialEq, Eq, Structural, Hash, Debug)]
pub struct CandidateId(pub u32);

/// How a candidate entered the race.  `WriteIn` candidates are excluded from
/// the headline candidate count but participate in tabulation.
#[derive(Clone, Copy, PartialEq, Eq, Structural, Hash, Debug)]
pub enum CandidateType {
    Regular,
    WriteIn,
    QualifiedWriteIn,
}

/// A mark at one rank of a ballot: a vote for a candidate, no mark at all
/// (undervote), or multiple conflicting marks (overvote).
#[derive(Clone, Copy, PartialEq, Eq, Structural, Hash, Debug)]
pub enum Choice {
    Vote(CandidateId),
    Undervote,
    Overvote,
}

/// A candidate as it appears in a contest.
#[derive(Clone, PartialEq, Eq, Debug)]
pub struct Candidate {
    pub name: String,
    pub kind: CandidateType,
}

impl Candidate {
    pub fn new(name: String, kind: CandidateType) -> (c: Candidate)
        ensures
            c.name == name,
            c.kind == kind,
    {
        Candidate { name, kind }
    }

    /// An exact copy of this candidate.
    pub fn duplicate(&self) -> (c: Candidate)
        ensures
            c == *self,
    {
        Candidate { name: self.name.clone(), kind: self.kind }
    }
}

/// A raw ballot: an opaque provenance id and a positionally ranked sequence of
/// choices (index 0 is the first preference).
#[derive(Clone, PartialEq, Eq, Debug)]
pub struct Ballot {
    pub id: String,
    pub choices: Vec<Choice>,
}

impl Ballot {
    pub fn new(id: String, choices: Vec<Choice>) -> (b: Ballot)
        ensures
            b.id == id,
            b.choices == choices,
    {
        Ballot { id, choices }
    }
}

/// A ballot after normalization, with format-specific quirks already applied.
/// Same shape as `Ballot`; the tabulator consumes only this form.
#[derive(Clone, PartialEq, Eq, Debug)]
pub struct NormalizedBallot {
    pub id: String,
    pub choices: Vec<Choice>,
}

impl NormalizedBallot {
    pub fn new(id: String, choices: Vec<Choice>) -> (b: NormalizedBallot)
        ensures
            b.id == id,
            b.choices == choices,
    {
        NormalizedBallot { id, choices }
    }

    /// The choice the ballot currently counts toward.
    pub open spec fn spec_top_vote(self) -> Choice {
        if self.choices@.len() == 0 {
            Choice::Undervote
        } else {
            self.choices@[0]
        }
    }

    /// Returns the first-ranked choice, or `Undervote` for an empty ballot.
    pub fn top_vote(&self) -> (c: Choice)
        ensures
            c == self.spec_top_vote(),
    {
        if self.choices.len() == 0 {
            Choice::Undervote
        } else {
            self.choices[0]
        }
    }

    /// Returns the ballot with its first-ranked choice removed; an empty
    /// ballot is returned unchanged.
    pub fn pop_top_vote(self) -> (b: NormalizedBallot)
        ensures
            b.id == self.id,
            self.choices@.len() > 0 ==> b.choices@ == self.choices@.drop_first(),
            self.choices@.len() == 0 ==> b.choices@ == self.choices@,
    {
        let ghost orig = self.choices@;
        let mut choices = self.choices;
        if choices.len() > 0 {
            choices.remove(0);
            proof {
                assert(choices@ =~= orig.drop_first());
            }
        }
        NormalizedBallot { id: self.id, choices }
    }
}

/// All candidate references of a choice sequence stay below `n`.
pub open spec fn choices_in_range(choices: Seq<Choice>, n: int) -> bool {
    forall|i: int|
        0 <= i < choices.len() ==> match #[trigger] choices[i] {
            Choice::Vote(c) => c.0 < n,
            _ => true,
        }
}

/// A raw election: the candidate table and the raw ballots of one contest.
#[derive(Clone, PartialEq, Eq, Debug)]
pub struct Election {
    pub candidates: Vec<Candidate>,
    pub ballots: Vec<Ballot>,
}

impl Election {
    pub fn new(candidates: Vec<Candidate>, ballots: Vec<Ballot>) -> (e: Election)
        ensures
            e.candidates == candidates,
            e.ballots == ballots,
    {
        Election { candidates, ballots }
    }

    /// Every vote on every ballot refers to a candidate in the table.
    pub open spec fn well_formed(self) -> bool {
        forall|i: int|
            0 <= i < self.ballots@.len() ==> choices_in_range(
                #[trigger] self.ballots@[i].choices@,
                self.candidates@.len() as int,
            )
    }
}

} // verus!
