//! The NYC spreadsheet batch format: the in-memory ballot database built
//! from the cast-vote-record workbooks, per-race extraction, and ballot-cell
//! interpretation.

use vstd::prelude::*;

use crate::btv::{all_digits, digits_val};
use crate::candidate_map::{add_id_to_choice_post, spec_lookup, CandidateMap};
use crate::metadata::{spec_param, Params};
use crate::model::{Ballot, Candidate, CandidateType, Choice, Election};

verus! {

/// A single ballot's choices for one race.
pub struct RaceBallotVote {
    pub ballot_id: String,
    pub race_key: String,
    pub choices: Vec<Choice>,
}

/// Metadata about one race discovered from the workbook headers.
pub struct RaceMetadata {
    pub race_key: String,
    pub office_name: String,
    pub jurisdiction_name: String,
    pub column_indices: Vec<usize>,
    pub max_rank: u32,
}

/// First value stored under a string key.
pub open spec fn assoc_str<V>(s: Seq<(String, V)>, key: Seq<char>) -> Option<V>
    decreases s.len(),
{
    if s.len() == 0 {
        None
    } else if s[0].0@ == key {
        Some(s[0].1)
    } else {
        assoc_str(s.drop_first(), key)
    }
}

/// First name stored under a numeric external candidate id.
pub open spec fn assoc_u32(s: Seq<(u32, String)>, key: u32) -> Option<String>
    decreases s.len(),
{
    if s.len() == 0 {
        None
    } else if s[0].0 == key {
        Some(s[0].1)
    } else {
        assoc_u32(s.drop_first(), key)
    }
}

/// The in-memory ballot database for one election's workbook bundle.
pub struct BallotDatabase {
    /// External candidate id to name, from the candidates workbook.
    pub candidates: Vec<(u32, String)>,
    /// Discovered races.
    pub races: Vec<RaceMetadata>,
    /// Every stored ballot-race combination.
    pub ballots: Vec<RaceBallotVote>,
    /// Race key to the indices of its ballots in `ballots`.
    pub ballots_by_race: Vec<(String, Vec<usize>)>,
    /// Race key to its candidate table.
    pub race_candidates: Vec<(String, Vec<Candidate>)>,
}

/// Content equality of candidate tables.
pub open spec fn candidates_eq(a: Seq<Candidate>, b: Seq<Candidate>) -> bool {
    a.len() == b.len() && forall|i: int|
        0 <= i < a.len() ==> (#[trigger] a[i]).name@ == b[i].name@ && a[i].kind == b[i].kind
}

/// What `to_election` returns for a race key: `Some` exactly when the race
/// has stored ballots and a candidate table, and then an election whose
/// ballots and candidates mirror the stored ones in order.
pub open spec fn to_election_post(db: BallotDatabase, key: Seq<char>, r: Option<Election>) -> bool {
    match r {
        Some(e) => {
            &&& match assoc_str(db.ballots_by_race@, key) {
                Some(idxs) => {
                    &&& idxs@.len() > 0
                    &&& e.ballots@.len() == idxs@.len()
                    &&& forall|k: int|
                        0 <= k < e.ballots@.len() ==> {
                            let src = db.ballots@[idxs@[k] as int];
                            (#[trigger] e.ballots@[k]).id@ == src.ballot_id@
                                && e.ballots@[k].choices@ == src.choices@
                        }
                },
                None => false,
            }
            &&& match assoc_str(db.race_candidates@, key) {
                Some(cands) => candidates_eq(e.candidates@, cands@),
                None => false,
            }
        },
        None => assoc_str(db.ballots_by_race@, key) is None || assoc_str(
            db.ballots_by_race@,
            key,
        ).unwrap()@.len() == 0 || assoc_str(db.race_candidates@, key) is None,
    }
}

/// The race key the orchestrator files a contest under: office and
/// jurisdiction joined by `|`.
pub open spec fn spec_race_key(office: Seq<char>, jurisdiction: Seq<char>) -> Seq<char> {
    office + "|"@ + jurisdiction
}

/// The race key of one contest's parameters (which must carry `officeName`
/// and `jurisdictionName`).
pub open spec fn contest_race_key(params: Params) -> Seq<char> {
    spec_race_key(
        spec_param(params.entries@, "officeName"@).unwrap(),
        spec_param(params.entries@, "jurisdictionName"@).unwrap(),
    )
}

impl BallotDatabase {
    /// Every ballot index stored under a race is in range.
    pub open spec fn wf(self) -> bool {
        forall|i: int, k: int|
            0 <= i < self.ballots_by_race@.len() && 0 <= k < self.ballots_by_race@[i].1@.len()
                ==> ((#[trigger] self.ballots_by_race@[i].1@[k]) as int) < self.ballots@.len()
    }

    pub fn new() -> (db: BallotDatabase)
        ensures
            db.candidates@.len() == 0,
            db.races@.len() == 0,
            db.ballots@.len() == 0,
            db.ballots_by_race@.len() == 0,
            db.race_candidates@.len() == 0,
            db.wf(),
    {
        BallotDatabase {
            candidates: Vec::new(),
            races: Vec::new(),
            ballots: Vec::new(),
            ballots_by_race: Vec::new(),
            race_candidates: Vec::new(),
        }
    }

    /// All ballots stored for one race, in storage order.
    #[verifier::loop_isolation(false)]
    pub fn get_ballots_for_race<'a>(&'a self, race_key: &String) -> (r: Vec<&'a RaceBallotVote>)
        requires
            self.wf(),
        ensures
            match assoc_str(self.ballots_by_race@, race_key@) {
                Some(idxs) => r@.len() == idxs@.len(),
                None => r@.len() == 0,
            },
            forall|k: int|
                0 <= k < r@.len() ==> {
                    let idxs = assoc_str(self.ballots_by_race@, race_key@).unwrap();
                    (idxs@[k] as int) < self.ballots@.len() && *(#[trigger] r@[k])
                        == self.ballots@[idxs@[k] as int]
                },
    {
        let ghost full = self.ballots_by_race@;
        proof {
            assert(full.skip(0) =~= full);
        }
        let mut i: usize = 0;
        let mut found_idx: Option<usize> = None;
        while i < self.ballots_by_race.len() && found_idx.is_none()
            invariant
                i <= full.len(),
                full == self.ballots_by_race@,
                match found_idx {
                    Some(ix) => ix < full.len() && assoc_str(full, race_key@) == Some(full[ix as int].1),
                    None => assoc_str(full, race_key@) == assoc_str(
                        full.skip(i as int),
                        race_key@,
                    ),
                },
            decreases full.len() - i + (match found_idx {
                Some(_) => 0int,
                None => 1int,
            }),
        {
            proof {
                assert(full.skip(i as int).len() > 0);
                assert(full.skip(i as int)[0] == full[i as int]);
                assert(full.skip(i as int).drop_first() =~= full.skip(i as int + 1));
            }
            if self.ballots_by_race[i].0 == *race_key {
                found_idx = Some(i);
            } else {
                i = i + 1;
            }
        }
        proof {
            if found_idx is None {
                assert(full.skip(i as int).len() == 0);
            }
        }
        match found_idx {
            Some(ix) => {
                let idxs = &self.ballots_by_race[ix].1;
                let ghost i = ix;
                proof {
                    assert(assoc_str(full, race_key@) == Some(full[i as int].1));
                }
                let mut out: Vec<&RaceBallotVote> = Vec::new();
                let mut k: usize = 0;
                while k < idxs.len()
                    invariant
                        k <= idxs@.len(),
                        idxs@ == full[i as int].1@,
                        i < full.len(),
                        full == self.ballots_by_race@,
                        self.wf(),
                        out@.len() == k,
                        forall|q: int|
                            0 <= q < k ==> (idxs@[q] as int) < self.ballots@.len() && *(
                            #[trigger] out@[q]) == self.ballots@[idxs@[q] as int],
                    decreases idxs@.len() - k,
                {
                    let idx = idxs[k];
                    proof {
                        assert((full[i as int].1@[k as int] as int) < self.ballots@.len());
                    }
                    out.push(&self.ballots[idx]);
                    k = k + 1;
                }
                out
            },
            None => {
                Vec::new()
            },
        }
    }

    /// Converts one race's stored ballots to an `Election`, when the race
    /// has ballots and a candidate table.
    #[verifier::loop_isolation(false)]
    pub fn to_election(&self, race_key: &String) -> (r: Option<Election>)
        requires
            self.wf(),
        ensures
            to_election_post(*self, race_key@, r),
    {
        // Find this race's stored ballot indices.
        let ghost bfull = self.ballots_by_race@;
        proof {
            assert(bfull.skip(0) =~= bfull);
        }
        let mut bi: usize = 0;
        let mut ballots_idx: Option<usize> = None;
        while bi < self.ballots_by_race.len() && ballots_idx.is_none()
            invariant
                bi <= bfull.len(),
                match ballots_idx {
                    Some(ix) => ix < bfull.len() && assoc_str(bfull, race_key@) == Some(
                        bfull[ix as int].1,
                    ),
                    None => assoc_str(bfull, race_key@) == assoc_str(
                        bfull.skip(bi as int),
                        race_key@,
                    ),
                },
            decreases bfull.len() - bi + (match ballots_idx {
                Some(_) => 0int,
                None => 1int,
            }),
        {
            proof {
                assert(bfull.skip(bi as int).len() > 0);
                assert(bfull.skip(bi as int)[0] == bfull[bi as int]);
                assert(bfull.skip(bi as int).drop_first() =~= bfull.skip(bi as int + 1));
            }
            if self.ballots_by_race[bi].0 == *race_key {
                ballots_idx = Some(bi);
            } else {
                bi = bi + 1;
            }
        }
        let idxs_vec = match ballots_idx {
            Some(ix) => {
                let ghost bi = ix;
                proof {
                    assert(assoc_str(bfull, race_key@) == Some(bfull[bi as int].1));
                }
                &self.ballots_by_race[ix].1
            },
            None => {
                proof {
                    assert(bfull.skip(bi as int).len() == 0);
                }
                return None;
            },
        };
        if idxs_vec.len() == 0 {
            return None;
        }
        // Find this race's candidate table.
        let ghost cfull = self.race_candidates@;
        proof {
            assert(cfull.skip(0) =~= cfull);
        }
        let mut ci: usize = 0;
        let mut cands_idx: Option<usize> = None;
        while ci < self.race_candidates.len() && cands_idx.is_none()
            invariant
                ci <= cfull.len(),
                match cands_idx {
                    Some(ix) => ix < cfull.len() && assoc_str(cfull, race_key@) == Some(
                        cfull[ix as int].1,
                    ),
                    None => assoc_str(cfull, race_key@) == assoc_str(
                        cfull.skip(ci as int),
                        race_key@,
                    ),
                },
            decreases cfull.len() - ci + (match cands_idx {
                Some(_) => 0int,
                None => 1int,
            }),
        {
            proof {
                assert(cfull.skip(ci as int).len() > 0);
                assert(cfull.skip(ci as int)[0] == cfull[ci as int]);
                assert(cfull.skip(ci as int).drop_first() =~= cfull.skip(ci as int + 1));
            }
            if self.race_candidates[ci].0 == *race_key {
                cands_idx = Some(ci);
            } else {
                ci = ci + 1;
            }
        }
        let cands = match cands_idx {
            Some(ix) => {
                let ghost ci = ix;
                proof {
                    assert(assoc_str(cfull, race_key@) == Some(cfull[ci as int].1));
                }
                &self.race_candidates[ix].1
            },
            None => {
                proof {
                    assert(cfull.skip(ci as int).len() == 0);
                }
                return None;
            },
        };
        let mut candidates: Vec<Candidate> = Vec::new();
        let mut k: usize = 0;
        while k < cands.len()
            invariant
                k <= cands@.len(),
                candidates@.len() == k,
                forall|q: int|
                    0 <= q < k ==> (#[trigger] candidates@[q]).name@ == cands@[q].name@
                        && candidates@[q].kind == cands@[q].kind,
            decreases cands@.len() - k,
        {
            candidates.push(cands[k].duplicate());
            k = k + 1;
        }
        let ghost idxs = assoc_str(self.ballots_by_race@, race_key@).unwrap();
        proof {
            assert(idxs_vec@ == idxs@);
        }
        let mut ballots: Vec<Ballot> = Vec::new();
        let mut k2: usize = 0;
        while k2 < idxs_vec.len()
            invariant
                k2 <= idxs_vec@.len(),
                ballots@.len() == k2,
                idxs_vec@ == idxs@,
                forall|q: int|
                    0 <= q < idxs_vec@.len() ==> (#[trigger] idxs_vec@[q] as int)
                        < self.ballots@.len(),
                forall|q: int|
                    0 <= q < k2 ==> {
                        let src = self.ballots@[idxs@[q] as int];
                        (#[trigger] ballots@[q]).id@ == src.ballot_id@ && ballots@[q].choices@
                            == src.choices@
                    },
            decreases idxs_vec@.len() - k2,
        {
            let idx = idxs_vec[k2];
            let rb = &self.ballots[idx];
            let id = rb.ballot_id.clone();
            let mut choices: Vec<Choice> = Vec::new();
            let mut q: usize = 0;
            while q < rb.choices.len()
                invariant
                    q <= rb.choices@.len(),
                    rb == self.ballots@[idxs@[k2 as int] as int],
                    k2 < idxs_vec@.len(),
                    choices@ == rb.choices@.take(q as int),
                decreases rb.choices@.len() - q,
            {
                choices.push(rb.choices[q]);
                proof {
                    assert(rb.choices@.take(q as int + 1) =~= rb.choices@.take(q as int).push(
                        rb.choices@[q as int],
                    ));
                }
                q = q + 1;
            }
            proof {
                assert(rb.choices@.take(rb.choices@.len() as int) =~= rb.choices@);
            }
            ballots.push(Ballot::new(id, choices));
            k2 = k2 + 1;
        }
        Some(Election::new(candidates, ballots))
    }
}

/// First index holding `key` (meaningful when the key is present).
pub open spec fn assoc_str_idx<V>(s: Seq<(String, V)>, key: Seq<char>) -> int
    decreases s.len(),
{
    if s.len() == 0 {
        0
    } else if s[0].0@ == key {
        0
    } else {
        1 + assoc_str_idx(s.drop_first(), key)
    }
}

/// When a key is present, its first index is in range, carries the key, and
/// yields the looked-up value; everything before it misses.
pub proof fn lemma_assoc_str_idx<V>(s: Seq<(String, V)>, key: Seq<char>)
    requires
        assoc_str(s, key) is Some,
    ensures
        0 <= assoc_str_idx(s, key) < s.len(),
        s[assoc_str_idx(s, key)].0@ == key,
        assoc_str(s, key) == Some(s[assoc_str_idx(s, key)].1),
        forall|j: int| 0 <= j < assoc_str_idx(s, key) ==> (#[trigger] s[j]).0@ != key,
    decreases s.len(),
{
    if s.len() > 0 && s[0].0@ != key {
        lemma_assoc_str_idx(s.drop_first(), key);
        let i = assoc_str_idx(s, key);
        assert(s.drop_first()[i - 1] == s[i]);
        assert forall|j: int| 0 <= j < i implies (#[trigger] s[j]).0@ != key by {
            if j >= 1 {
                assert(s.drop_first()[j - 1] == s[j]);
                assert(s.drop_first()[j - 1].0@ != key);
            }
        }
    }
}

impl BallotDatabase {
    /// Whether a race has been registered.
    #[verifier::loop_isolation(false)]
    pub fn has_race(&self, race_key: &String) -> (r: bool)
        ensures
            r == (assoc_str(self.ballots_by_race@, race_key@) is Some),
    {
        let ghost full = self.ballots_by_race@;
        proof {
            assert(full.skip(0) =~= full);
        }
        let mut i: usize = 0;
        while i < self.ballots_by_race.len()
            invariant
                i <= full.len(),
                assoc_str(full, race_key@) == assoc_str(full.skip(i as int), race_key@),
            decreases full.len() - i,
        {
            proof {
                assert(full.skip(i as int).len() > 0);
                assert(full.skip(i as int)[0] == full[i as int]);
                assert(full.skip(i as int).drop_first() =~= full.skip(i as int + 1));
            }
            if self.ballots_by_race[i].0 == *race_key {
                return true;
            }
            i = i + 1;
        }
        proof {
            assert(full.skip(i as int).len() == 0);
        }
        false
    }

    /// Registers a newly discovered race: its metadata and an empty ballot
    /// index list.
    pub fn register_race(
        &mut self,
        race_key: &String,
        office_name: &String,
        jurisdiction_name: &String,
    )
        requires
            old(self).wf(),
            assoc_str(old(self).ballots_by_race@, race_key@) is None,
        ensures
            final(self).wf(),
            final(self).candidates@ == old(self).candidates@,
            final(self).ballots@ == old(self).ballots@,
            final(self).race_candidates@ == old(self).race_candidates@,
            final(self).races@.len() == old(self).races@.len() + 1,
            forall|j: int| 0 <= j < old(self).races@.len() ==> final(self).races@[j]
                == old(self).races@[j],
            final(self).races@.last().race_key@ == race_key@,
            final(self).races@.last().office_name@ == office_name@,
            final(self).races@.last().jurisdiction_name@ == jurisdiction_name@,
            final(self).ballots_by_race@.len() == old(self).ballots_by_race@.len() + 1,
            forall|j: int|
                0 <= j < old(self).ballots_by_race@.len() ==> final(self).ballots_by_race@[j]
                    == old(self).ballots_by_race@[j],
            final(self).ballots_by_race@.last().0@ == race_key@,
            final(self).ballots_by_race@.last().1@.len() == 0,
            assoc_str(final(self).ballots_by_race@, race_key@) is Some,
    {
        self.races.push(
            RaceMetadata {
                race_key: race_key.clone(),
                office_name: office_name.clone(),
                jurisdiction_name: jurisdiction_name.clone(),
                column_indices: Vec::new(),
                max_rank: 5,
            },
        );
        let indices: Vec<usize> = Vec::new();
        let ghost before = self.ballots_by_race@;
        self.ballots_by_race.push((race_key.clone(), indices));
        proof {
            lemma_assoc_push_found(before, race_key@, self.ballots_by_race@.last().1);
            let pushed = self.ballots_by_race@.last();
            assert(pushed.0@ == race_key@);
            assert(self.ballots_by_race@ == before.push(pushed));
            assert(assoc_str(before.push(pushed), race_key@) == Some(pushed.1));
            assert forall|i: int, k: int|
                0 <= i < self.ballots_by_race@.len() && 0 <= k
                    < self.ballots_by_race@[i].1@.len() implies ((
            #[trigger] self.ballots_by_race@[i].1@[k]) as int) < self.ballots@.len() by {
                if i < before.len() {
                    assert(self.ballots_by_race@[i] == before[i]);
                } else {
                    assert(self.ballots_by_race@[i].1@.len() == 0);
                }
            }
        }
    }

    /// Stores one ballot's choices for a registered race.
    #[verifier::loop_isolation(false)]
    pub fn record_ballot(&mut self, race_key: &String, ballot_id: String, choices: Vec<Choice>)
        requires
            old(self).wf(),
            assoc_str(old(self).ballots_by_race@, race_key@) is Some,
            old(self).ballots@.len() < usize::MAX,
        ensures
            final(self).wf(),
            final(self).candidates@ == old(self).candidates@,
            final(self).races@ == old(self).races@,
            final(self).race_candidates@ == old(self).race_candidates@,
            final(self).ballots@.len() == old(self).ballots@.len() + 1,
            forall|j: int|
                0 <= j < old(self).ballots@.len() ==> final(self).ballots@[j] == old(
                    self,
                ).ballots@[j],
            final(self).ballots@.last().ballot_id == ballot_id,
            final(self).ballots@.last().race_key@ == race_key@,
            final(self).ballots@.last().choices == choices,
            final(self).ballots_by_race@.len() == old(self).ballots_by_race@.len(),
            forall|j: int|
                0 <= j < old(self).ballots_by_race@.len() && j != assoc_str_idx(
                    old(self).ballots_by_race@,
                    race_key@,
                ) ==> final(self).ballots_by_race@[j] == old(self).ballots_by_race@[j],
            ({
                let i = assoc_str_idx(old(self).ballots_by_race@, race_key@);
                &&& final(self).ballots_by_race@[i].0 == old(self).ballots_by_race@[i].0
                &&& final(self).ballots_by_race@[i].1@ == old(self).ballots_by_race@[i].1@.push(
                    old(self).ballots@.len() as usize,
                )
            }),
    {
        let ghost bfull = self.ballots_by_race@;
        proof {
            lemma_assoc_str_idx(bfull, race_key@);
            assert(bfull.skip(0) =~= bfull);
        }
        let ballot_index = self.ballots.len();
        self.ballots.push(
            RaceBallotVote { ballot_id, race_key: race_key.clone(), choices },
        );
        let ghost snap = *self;
        let mut i: usize = 0;
        while i < self.ballots_by_race.len()
            invariant
                i <= bfull.len(),
                self.candidates@ == snap.candidates@,
                self.races@ == snap.races@,
                self.race_candidates@ == snap.race_candidates@,
                self.ballots@ == snap.ballots@,
                self.ballots_by_race@ == bfull,
                i <= assoc_str_idx(bfull, race_key@),
                forall|j: int| 0 <= j < i ==> (#[trigger] bfull[j]).0@ != race_key@,
                assoc_str(bfull, race_key@) == assoc_str(bfull.skip(i as int), race_key@),
            decreases bfull.len() - i,
        {
            proof {
                assert(bfull.skip(i as int).len() > 0);
                assert(bfull.skip(i as int)[0] == bfull[i as int]);
                assert(bfull.skip(i as int).drop_first() =~= bfull.skip(i as int + 1));
            }
            if self.ballots_by_race[i].0 == *race_key {
                proof {
                    assert(i as int == assoc_str_idx(bfull, race_key@)) by {
                        if (i as int) < assoc_str_idx(bfull, race_key@) {
                            assert(bfull[i as int].0@ != race_key@);
                        }
                    }
                }
                self.ballots_by_race[i].1.push(ballot_index);
                proof {
                    assert(self.ballots_by_race@[i as int].1@ == bfull[i as int].1@.push(
                        ballot_index,
                    ));
                    assert(forall|j: int|
                        0 <= j < bfull.len() && j != i as int
                            ==> self.ballots_by_race@[j] == bfull[j]);
                }
                return ;
            }
            proof {
                assert(bfull[i as int].0@ != race_key@);
                assert((i as int) < assoc_str_idx(bfull, race_key@)) by {
                    if (i as int) == assoc_str_idx(bfull, race_key@) {
                        assert(bfull[i as int].0@ == race_key@);
                    }
                }
            }
            i = i + 1;
        }
        proof {
            assert(false);
        }
    }

    /// Installs a race's finished candidate table.
    pub fn set_race_candidates(&mut self, race_key: String, candidates: Vec<Candidate>)
        requires
            old(self).wf(),
        ensures
            final(self).wf(),
            final(self).candidates@ == old(self).candidates@,
            final(self).races@ == old(self).races@,
            final(self).ballots@ == old(self).ballots@,
            final(self).ballots_by_race@ == old(self).ballots_by_race@,
            final(self).race_candidates@ == old(self).race_candidates@.push(
                (race_key, candidates),
            ),
    {
        self.race_candidates.push((race_key, candidates));
    }
}

/// Appending a pair under a missing key makes the key found, at the end.
proof fn lemma_assoc_push_found<V>(s: Seq<(String, V)>, key: Seq<char>, v: V)
    requires
        assoc_str(s, key) is None,
    ensures
        forall|k2: (String, V)|
            (#[trigger] k2.0)@ == key ==> assoc_str(s.push(k2), key) == Some(k2.1),
    decreases s.len(),
{
    assert forall|k2: (String, V)| (#[trigger] k2.0)@ == key implies assoc_str(s.push(k2), key)
        == Some(k2.1) by {
        lemma_assoc_push_found_one(s, key, k2);
    }
}

proof fn lemma_assoc_push_found_one<V>(s: Seq<(String, V)>, key: Seq<char>, k2: (String, V))
    requires
        assoc_str(s, key) is None,
        k2.0@ == key,
    ensures
        assoc_str(s.push(k2), key) == Some(k2.1),
    decreases s.len(),
{
    if s.len() == 0 {
        assert(s.push(k2)[0] == k2);
    } else {
        assert(s.push(k2).drop_first() =~= s.drop_first().push(k2));
        lemma_assoc_push_found_one(s.drop_first(), key, k2);
    }
}

/// What one ballot cell of a race's column does: the special tokens, numeric
/// external candidate ids (known ids register the candidate; unknown cells
/// degrade to undervotes), and the shared write-in pseudo-candidate.
pub open spec fn interpret_cell_post(
    cell: CellValue,
    directory: Seq<(u32, String)>,
    pre: CandidateMap<u32>,
    post: CandidateMap<u32>,
    choice: Choice,
    has_vote: bool,
) -> bool {
    match cell {
        CellValue::Empty => post == pre && choice == Choice::Undervote && !has_vote,
        CellValue::Num(ext_id) => match assoc_u32(directory, ext_id) {
            Some(nm) => has_vote && exists|cand: Candidate|
                cand.name@ == nm@ && cand.kind == CandidateType::Regular
                    && #[trigger] add_id_to_choice_post(pre, ext_id, cand, post, choice),
            None => post == pre && choice == Choice::Undervote && !has_vote,
        },
        CellValue::Text(s) => {
            if s@ == "undervote"@ {
                post == pre && choice == Choice::Undervote && !has_vote
            } else if s@ == "overvote"@ {
                post == pre && choice == Choice::Overvote && has_vote
            } else if s@ == "Write-in"@ {
                has_vote && exists|cand: Candidate|
                    cand.name@ == "Write-in"@ && cand.kind == CandidateType::WriteIn
                        && #[trigger] add_id_to_choice_post(pre, 0u32, cand, post, choice)
            } else if s@.len() >= 1 && all_digits(s@) && digits_val(s@) <= u32::MAX as int {
                let ext_id = digits_val(s@) as u32;
                match assoc_u32(directory, ext_id) {
                    Some(nm) => has_vote && exists|cand: Candidate|
                        cand.name@ == nm@ && cand.kind == CandidateType::Regular
                            && #[trigger] add_id_to_choice_post(pre, ext_id, cand, post, choice),
                    None => post == pre && choice == Choice::Undervote && !has_vote,
                }
            } else {
                post == pre && choice == Choice::Undervote && !has_vote
            }
        },
    }
}

/// The plain content of one spreadsheet cell, as the reader hands it over.
pub enum CellValue {
    Text(String),
    Num(u32),
    Empty,
}

/// Parses a plain decimal `u32`.
#[verifier::loop_isolation(false)]
fn parse_u32(s: &str) -> (r: Option<u32>)
    ensures
        match r {
            Some(v) => s@.len() >= 1 && all_digits(s@) && digits_val(s@) <= u32::MAX as int && v
                as int == digits_val(s@),
            None => !(s@.len() >= 1 && all_digits(s@) && digits_val(s@) <= u32::MAX as int),
        },
{
    let n = s.unicode_len();
    if n == 0 {
        return None;
    }
    let mut i: usize = 0;
    while i < n
        invariant
            i <= n,
            n == s@.len(),
            forall|k: int| 0 <= k < i ==> crate::btv::is_digit(#[trigger] s@[k]),
        decreases n - i,
    {
        let c = s.get_char(i);
        let cv = c as u32;
        if cv < '0' as u32 || cv > '9' as u32 {
            proof {
                assert(!crate::btv::is_digit(s@[i as int]));
            }
            return None;
        }
        i = i + 1;
    }
    proof {
        assert(all_digits(s@));
    }
    let mut val: u64 = 0;
    let mut j: usize = 0;
    while j < n
        invariant
            j <= n,
            n == s@.len(),
            all_digits(s@),
            val as int == digits_val(s@.take(j as int)),
            val <= u32::MAX,
        decreases n - j,
    {
        let c = s.get_char(j);
        let d = (c as u32) - ('0' as u32);
        proof {
            assert(crate::btv::is_digit(s@[j as int]));
            assert(s@.take(j as int + 1).drop_last() =~= s@.take(j as int));
            assert(s@.take(j as int + 1).last() == s@[j as int]);
        }
        let next: u64 = val * 10 + d as u64;
        proof {
            assert(next as int == digits_val(s@.take(j as int + 1)));
        }
        if next > u32::MAX as u64 {
            proof {
                crate::btv::lemma_digits_val_prefix_le(s@, j as int + 1);
            }
            return None;
        }
        val = next;
        j = j + 1;
    }
    proof {
        assert(s@.take(n as int) =~= s@);
    }
    Some(val as u32)
}

/// Looks a numeric external candidate id up in the candidates directory.
#[verifier::loop_isolation(false)]
fn directory_lookup<'a>(directory: &'a Vec<(u32, String)>, id: u32) -> (r: Option<&'a String>)
    ensures
        match r {
            Some(nm) => Some(*nm) == assoc_u32(directory@, id),
            None => assoc_u32(directory@, id) is None,
        },
{
    let ghost full = directory@;
    proof {
        assert(full.skip(0) =~= full);
    }
    let mut i: usize = 0;
    while i < directory.len()
        invariant
            i <= full.len(),
            full == directory@,
            assoc_u32(full, id) == assoc_u32(full.skip(i as int), id),
        decreases full.len() - i,
    {
        proof {
            assert(full.skip(i as int).len() > 0);
            assert(full.skip(i as int)[0] == full[i as int]);
            assert(full.skip(i as int).drop_first() =~= full.skip(i as int + 1));
        }
        if directory[i].0 == id {
            return Some(&directory[i].1);
        }
        i = i + 1;
    }
    proof {
        assert(full.skip(i as int).len() == 0);
    }
    None
}

/// Interprets one ballot cell of a race's column, registering candidates in
/// the race's map as they are first seen.  The second component reports
/// whether the cell carries an actual mark.
pub fn interpret_cell(
    cell: &CellValue,
    directory: &Vec<(u32, String)>,
    map: &mut CandidateMap<u32>,
) -> (r: (Choice, bool))
    requires
        old(map).cands().len() < u32::MAX,
        old(map).wf(),
    ensures
        final(map).wf(),
        interpret_cell_post(*cell, directory@, *old(map), *final(map), r.0, r.1),
{
    match cell {
        CellValue::Empty => {
            proof {
                assert(interpret_cell_post(*cell, directory@, *old(map), *map, Choice::Undervote,
                    false));
            }
            (Choice::Undervote, false)
        },
        CellValue::Num(ext_id) => {
            let r = register_numeric(*ext_id, directory, map);
            proof {
                assert(interpret_cell_post(*cell, directory@, *old(map), *map, r.0, r.1));
            }
            r
        },
        CellValue::Text(s) => {
            let und = String::from_str("undervote");
            let ove = String::from_str("overvote");
            let wri = String::from_str("Write-in");
            if *s == und {
                proof {
                    assert(interpret_cell_post(*cell, directory@, *old(map), *map,
                        Choice::Undervote, false));
                }
                (Choice::Undervote, false)
            } else if *s == ove {
                proof {
                    assert(interpret_cell_post(*cell, directory@, *old(map), *map,
                        Choice::Overvote, true));
                }
                (Choice::Overvote, true)
            } else if *s == wri {
                let cand = Candidate::new(String::from_str("Write-in"), CandidateType::WriteIn);
                let ghost cand_g = cand;
                let choice = map.add_id_to_choice(0, cand);
                proof {
                    assert(add_id_to_choice_post(*old(map), 0u32, cand_g, *map, choice));
                    assert(interpret_cell_post(*cell, directory@, *old(map), *map, choice, true));
                }
                (choice, true)
            } else {
                let parsed = parse_u32(s.as_str());
                match parsed {
                    Some(ext_id) => {
                        let r = register_numeric(ext_id, directory, map);
                        proof {
                            assert(ext_id as int == digits_val(s@));
                            assert(interpret_cell_post(*cell, directory@, *old(map), *map, r.0,
                                r.1));
                        }
                        r
                    },
                    None => {
                        proof {
                            assert(interpret_cell_post(*cell, directory@, *old(map), *map,
                                Choice::Undervote, false));
                        }
                        (Choice::Undervote, false)
                    },
                }
            }
        },
    }
}

/// Registers a numeric external candidate id when the directory knows it.
fn register_numeric(ext_id: u32, directory: &Vec<(u32, String)>, map: &mut CandidateMap<u32>) -> (r:
    (Choice, bool))
    requires
        old(map).cands().len() < u32::MAX,
        old(map).wf(),
    ensures
        final(map).wf(),
        match assoc_u32(directory@, ext_id) {
            Some(nm) => r.1 && exists|cand: Candidate|
                cand.name@ == nm@ && cand.kind == CandidateType::Regular
                    && #[trigger] add_id_to_choice_post(*old(map), ext_id, cand, *final(map), r.0),
            None => *final(map) == *old(map) && r.0 == Choice::Undervote && !r.1,
        },
{
    let found = directory_lookup(directory, ext_id);
    match found {
        Some(nm) => {
            let cand = Candidate::new(nm.clone(), CandidateType::Regular);
            let ghost cand_g = cand;
            let choice = map.add_id_to_choice(ext_id, cand);
            proof {
                assert(add_id_to_choice_post(*old(map), ext_id, cand_g, *map, choice));
            }
            (choice, true)
        },
        None => (Choice::Undervote, false),
    }
}

/// Maps each contest to its race's `Election` from the pre-loaded ballot
/// database (an empty election when the database has no such race).
#[verifier::loop_isolation(false)]
pub fn nyc_batch_reader(db: &BallotDatabase, contests: &Vec<(String, Params)>) -> (r: Vec<
    (String, Election),
>)
    requires
        db.wf(),
        forall|i: int|
            0 <= i < contests@.len() ==> spec_param(
                (#[trigger] contests@[i]).1.entries@,
                "officeName"@,
            ) is Some && spec_param(contests@[i].1.entries@, "jurisdictionName"@) is Some,
    ensures
        r@.len() == contests@.len(),
        forall|i: int| 0 <= i < r@.len() ==> (#[trigger] r@[i]).0 == contests@[i].0,
        forall|i: int|
            0 <= i < r@.len() ==> {
                let key = contest_race_key(contests@[i].1);
                ||| to_election_post(*db, key, Some((#[trigger] r@[i]).1))
                ||| (to_election_post(*db, key, None) && r@[i].1.ballots@.len() == 0
                    && r@[i].1.candidates@.len() == 0)
            },
{
    let office_key = String::from_str("officeName");
    let jur_key = String::from_str("jurisdictionName");
    let mut out: Vec<(String, Election)> = Vec::new();
    let mut i: usize = 0;
    while i < contests.len()
        invariant
            i <= contests@.len(),
            out@.len() == i,
            db.wf(),
            office_key@ == "officeName"@,
            jur_key@ == "jurisdictionName"@,
            forall|k: int|
                0 <= k < contests@.len() ==> spec_param(
                    (#[trigger] contests@[k]).1.entries@,
                    "officeName"@,
                ) is Some && spec_param(contests@[k].1.entries@, "jurisdictionName"@) is Some,
            forall|k: int| 0 <= k < i ==> (#[trigger] out@[k]).0 == contests@[k].0,
            forall|k: int|
                0 <= k < i ==> {
                    let key = contest_race_key(contests@[k].1);
                    ||| to_election_post(*db, key, Some((#[trigger] out@[k]).1))
                    ||| (to_election_post(*db, key, None) && out@[k].1.ballots@.len() == 0
                        && out@[k].1.candidates@.len() == 0)
                },
        decreases contests@.len() - i,
    {
        let office_id = contests[i].0.clone();
        let office_name = match contests[i].1.get(&office_key) {
            Some(v) => v.clone(),
            None => {
                proof {
                    assert(false);
                }
                String::new()
            },
        };
        let jurisdiction_name = match contests[i].1.get(&jur_key) {
            Some(v) => v.clone(),
            None => {
                proof {
                    assert(false);
                }
                String::new()
            },
        };
        let race_key = office_name.concat("|").concat(jurisdiction_name.as_str());
        proof {
            assert(race_key@ == contest_race_key(contests@[i as int].1));
        }
        let election = match db.to_election(&race_key) {
            Some(e) => {
                proof {
                    assert(to_election_post(*db, contest_race_key(contests@[i as int].1), Some(e)));
                }
                e
            },
            None => {
                proof {
                    assert(to_election_post(*db, contest_race_key(contests@[i as int].1), None));
                }
                Election::new(Vec::new(), Vec::new())
            },
        };
        out.push((office_id, election));
        i = i + 1;
    }
    out
}

} // verus!
