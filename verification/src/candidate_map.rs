//! Assigns stable internal candidate indices to externally keyed candidates
//! and deduplicates candidates by name.

use vstd::prelude::*;

use crate::model::{Candidate, CandidateId, Choice};

verus! {

/// An external candidate key: a type with a decidable equality the map can
/// use for lookups.
pub trait ExternalKey: Sized {
    /// What it means for two keys to be the same external candidate.
    spec fn keq(&self, other: &Self) -> bool;

    proof fn keq_reflexive(&self)
        ensures
            self.keq(self),
    ;

    /// Decides `keq`.
    fn key_eq(&self, other: &Self) -> (r: bool)
        ensures
            r == self.keq(other),
    ;
}

impl ExternalKey for u32 {
    open spec fn keq(&self, other: &Self) -> bool {
        self == other
    }

    proof fn keq_reflexive(&self) {
    }

    fn key_eq(&self, other: &Self) -> (r: bool) {
        *self == *other
    }
}

impl ExternalKey for String {
    open spec fn keq(&self, other: &Self) -> bool {
        self@ == other@
    }

    proof fn keq_reflexive(&self) {
    }

    fn key_eq(&self, other: &Self) -> (r: bool) {
        *self == *other
    }
}

/// First mapping of key `k` in the association list, if any.
pub open spec fn spec_lookup<K: ExternalKey>(s: Seq<(K, CandidateId)>, k: K) -> Option<CandidateId>
    decreases s.len(),
{
    if s.len() == 0 {
        None
    } else if s[0].0.keq(&k) {
        Some(s[0].1)
    } else {
        spec_lookup(s.drop_first(), k)
    }
}

/// First position holding a candidate named `name`, if any.
pub open spec fn spec_name_pos(cands: Seq<Candidate>, name: Seq<char>) -> Option<int>
    decreases cands.len(),
{
    if cands.len() == 0 {
        None
    } else if cands[0].name@ == name {
        Some(0int)
    } else {
        match spec_name_pos(cands.drop_first(), name) {
            Some(i) => Some(i + 1),
            None => None,
        }
    }
}

/// A lookup in an extended list that misses the old part finds the new pair.
pub proof fn lemma_lookup_push_hit<K: ExternalKey>(s: Seq<(K, CandidateId)>, k: K, id: CandidateId)
    requires
        spec_lookup(s, k) is None,
    ensures
        spec_lookup(s.push((k, id)), k) == Some(id),
    decreases s.len(),
{
    if s.len() == 0 {
        assert(s.push((k, id))[0] == (k, id));
        k.keq_reflexive();
    } else {
        assert(s.push((k, id)).drop_first() =~= s.drop_first().push((k, id)));
        lemma_lookup_push_hit(s.drop_first(), k, id);
    }
}

/// Maps external candidate keys to dense internal candidate indices, with
/// name-level deduplication on `add_id_to_choice`.
pub struct CandidateMap<K: ExternalKey> {
    pub id_to_index: Vec<(K, CandidateId)>,
    pub candidates: Vec<Candidate>,
}

/// Full behavior of one `add_id_to_choice` call: a known key changes
/// nothing; an unknown key whose candidate name already exists is aliased to
/// that candidate; otherwise the candidate is appended under a fresh index.
pub open spec fn add_id_to_choice_post<K: ExternalKey>(
    pre: CandidateMap<K>,
    k: K,
    cand: Candidate,
    post: CandidateMap<K>,
    r: Choice,
) -> bool {
    match spec_lookup(pre.pairs(), k) {
        Some(id) => post == pre && r == Choice::Vote(id),
        None => match spec_name_pos(pre.cands(), cand.name@) {
            Some(i) => {
                &&& post.cands() == pre.cands()
                &&& post.pairs() == pre.pairs().push((k, CandidateId(i as u32)))
                &&& r == Choice::Vote(CandidateId(i as u32))
            },
            None => {
                &&& post.cands() == pre.cands().push(cand)
                &&& post.pairs() == pre.pairs().push(
                    (k, CandidateId(pre.cands().len() as u32)),
                )
                &&& r == Choice::Vote(CandidateId(pre.cands().len() as u32))
            },
        },
    }
}

/// Result of merging another map's observations: each of the other map's
/// pairs in order, unknown keys getting fresh indices and copies of their
/// candidates, known keys ignored (no name-level deduplication).
pub open spec fn merge_spec<K: ExternalKey>(
    pairs: Seq<(K, CandidateId)>,
    cands: Seq<Candidate>,
    opairs: Seq<(K, CandidateId)>,
    ocands: Seq<Candidate>,
) -> (Seq<(K, CandidateId)>, Seq<Candidate>)
    decreases opairs.len(),
{
    if opairs.len() == 0 {
        (pairs, cands)
    } else {
        let p = opairs[0];
        if spec_lookup(pairs, p.0) is Some {
            merge_spec(pairs, cands, opairs.drop_first(), ocands)
        } else {
            merge_spec(
                pairs.push((p.0, CandidateId(cands.len() as u32))),
                cands.push(ocands[p.1.0 as int]),
                opairs.drop_first(),
                ocands,
            )
        }
    }
}

impl<K: ExternalKey> CandidateMap<K> {
    pub open spec fn pairs(self) -> Seq<(K, CandidateId)> {
        self.id_to_index@
    }

    pub open spec fn cands(self) -> Seq<Candidate> {
        self.candidates@
    }

    /// Every issued index points into the candidate table.
    pub open spec fn wf(self) -> bool {
        forall|i: int|
            0 <= i < self.pairs().len() ==> ((#[trigger] self.pairs()[i]).1.0 as int)
                < self.cands().len()
    }

    pub fn new() -> (m: CandidateMap<K>)
        ensures
            m.pairs().len() == 0,
            m.cands().len() == 0,
            m.wf(),
    {
        CandidateMap { id_to_index: Vec::new(), candidates: Vec::new() }
    }

    /// Appends a candidate under a fresh internal index keyed by
    /// `external_candidate_id`.  The key must be new: issued keys keep their
    /// index for good, so re-adding one is an upstream bug.
    pub fn add(&mut self, external_candidate_id: K, candidate: Candidate)
        requires
            old(self).cands().len() < u32::MAX,
            old(self).wf(),
            spec_lookup(old(self).pairs(), external_candidate_id) is None,
        ensures
            final(self).pairs() == old(self).pairs().push(
                (external_candidate_id, CandidateId(old(self).cands().len() as u32)),
            ),
            final(self).cands() == old(self).cands().push(candidate),
            final(self).wf(),
    {
        let id = CandidateId(self.candidates.len() as u32);
        self.id_to_index.push((external_candidate_id, id));
        self.candidates.push(candidate);
    }

    /// First mapping of `k`, decided by `key_eq`.
    fn find(&self, k: &K) -> (r: Option<CandidateId>)
        ensures
            r == spec_lookup(self.pairs(), *k),
    {
        let ghost full = self.pairs();
        proof {
            assert(full.skip(0) =~= full);
        }
        let mut i: usize = 0;
        while i < self.id_to_index.len()
            invariant
                i <= full.len(),
                full == self.pairs(),
                spec_lookup(full, *k) == spec_lookup(full.skip(i as int), *k),
            decreases full.len() - i,
        {
            proof {
                assert(full.skip(i as int).len() > 0);
                assert(full.skip(i as int)[0] == full[i as int]);
                assert(full.skip(i as int).drop_first() =~= full.skip(i as int + 1));
            }
            if self.id_to_index[i].0.key_eq(k) {
                return Some(self.id_to_index[i].1);
            }
            i = i + 1;
        }
        proof {
            assert(full.skip(i as int).len() == 0);
        }
        None
    }

    /// First position of a candidate with the given name.
    fn find_name(&self, name: &String) -> (r: Option<usize>)
        ensures
            match r {
                Some(i) => Some(i as int) == spec_name_pos(self.cands(), name@),
                None => spec_name_pos(self.cands(), name@) is None,
            },
    {
        let ghost full = self.cands();
        proof {
            assert(full.skip(0) =~= full);
        }
        let mut i: usize = 0;
        while i < self.candidates.len()
            invariant
                i <= full.len(),
                full == self.cands(),
                forall|j: int| 0 <= j < i ==> (#[trigger] full[j]).name@ != name@,
                spec_name_pos(full, name@) == match spec_name_pos(full.skip(i as int), name@) {
                    Some(p) => Some(p + i as int),
                    None => None::<int>,
                },
            decreases full.len() - i,
        {
            proof {
                assert(full.skip(i as int).len() > 0);
                assert(full.skip(i as int)[0] == full[i as int]);
                assert(full.skip(i as int).drop_first() =~= full.skip(i as int + 1));
            }
            if self.candidates[i].name == *name {
                proof {
                    assert(spec_name_pos(full.skip(i as int), name@) == Some(0int));
                }
                return Some(i);
            }
            proof {
                assert(spec_name_pos(full.skip(i as int), name@) == (
                match spec_name_pos(full.skip(i as int + 1), name@) {
                    Some(p) => Some(p + 1),
                    None => None::<int>,
                }));
            }
            i = i + 1;
        }
        proof {
            assert(full.skip(i as int).len() == 0);
        }
        None
    }

    /// First mapping of `k`, if the key has been issued.
    pub fn lookup(&self, k: &K) -> (r: Option<CandidateId>)
        ensures
            r == spec_lookup(self.pairs(), *k),
    {
        self.find(k)
    }

    /// Resolves an external key to its vote; callers must have issued the
    /// key before (a miss is an upstream bug).
    pub fn id_to_choice(&self, external_candidate_id: K) -> (r: Choice)
        requires
            spec_lookup(self.pairs(), external_candidate_id) is Some,
        ensures
            Some(r) == match spec_lookup(self.pairs(), external_candidate_id) {
                Some(id) => Some(Choice::Vote(id)),
                None => None,
            },
    {
        let found = self.find(&external_candidate_id);
        match found {
            Some(id) => Choice::Vote(id),
            None => {
                proof {
                    assert(false);
                }
                Choice::Undervote
            },
        }
    }

    /// Resolves a key to a vote, registering the candidate first if needed:
    /// an unknown key aliases to an existing candidate of the same name, or
    /// appends a new candidate.
    pub fn add_id_to_choice(&mut self, external_candidate_id: K, candidate: Candidate) -> (r:
        Choice)
        requires
            old(self).cands().len() < u32::MAX,
            old(self).wf(),
        ensures
            add_id_to_choice_post(*old(self), external_candidate_id, candidate, *final(self), r),
            final(self).wf(),
    {
        let found = self.find(&external_candidate_id);
        match found {
            Some(id) => Choice::Vote(id),
            None => {
                let named = self.find_name(&candidate.name);
                match named {
                    Some(i) => {
                        proof {
                            Self::lemma_name_pos_in_range(self.cands(), candidate.name@);
                        }
                        let id = CandidateId(i as u32);
                        self.id_to_index.push((external_candidate_id, id));
                        Choice::Vote(id)
                    },
                    None => {
                        let id = CandidateId(self.candidates.len() as u32);
                        self.add(external_candidate_id, candidate);
                        Choice::Vote(id)
                    },
                }
            },
        }
    }

    proof fn lemma_name_pos_in_range(cands: Seq<Candidate>, name: Seq<char>)
        ensures
            match spec_name_pos(cands, name) {
                Some(i) => 0 <= i < cands.len(),
                None => true,
            },
        decreases cands.len(),
    {
        if cands.len() > 0 {
            Self::lemma_name_pos_in_range(cands.drop_first(), name);
        }
    }

    /// The candidate table, in internal index order.
    pub fn into_vec(self) -> (r: Vec<Candidate>)
        ensures
            r == self.candidates,
    {
        self.candidates
    }

    /// Merges another map's per-file observations: fresh indices for unknown
    /// external keys, and intentionally no name-level deduplication.
    pub fn merge(&mut self, other: CandidateMap<K>)
        requires
            old(self).wf(),
            other.wf(),
            old(self).cands().len() + other.pairs().len() < u32::MAX,
        ensures
            (final(self).pairs(), final(self).cands()) == merge_spec(
                old(self).pairs(),
                old(self).cands(),
                other.pairs(),
                other.cands(),
            ),
            final(self).wf(),
    {
        let ghost opairs = other.pairs();
        let ghost ocands = other.cands();
        let mut rest = other.id_to_index;
        let ocandidates = other.candidates;
        let ghost start_pairs = self.pairs();
        let ghost start_cands = self.cands();
        let mut taken: usize = 0;
        while rest.len() > 0
            invariant
                taken <= opairs.len(),
                rest@ == opairs.skip(taken as int),
                ocandidates@ == ocands,
                self.wf(),
                forall|i: int|
                    0 <= i < opairs.len() ==> ((#[trigger] opairs[i]).1.0 as int) < ocands.len(),
                self.cands().len() <= start_cands.len() + taken,
                start_cands.len() + opairs.len() < u32::MAX,
                merge_spec(start_pairs, start_cands, opairs, ocands) == merge_spec(
                    self.pairs(),
                    self.cands(),
                    opairs.skip(taken as int),
                    ocands,
                ),
            decreases rest@.len(),
        {
            let pair = rest.remove(0);
            proof {
                assert(pair == opairs[taken as int]);
                assert(rest@ =~= opairs.skip(taken as int + 1));
                assert(opairs.skip(taken as int)[0] == opairs[taken as int]);
                assert(opairs.skip(taken as int).drop_first() =~= opairs.skip(taken as int + 1));
            }
            let (key, oid) = pair;
            let found = self.find(&key);
            match found {
                Some(_) => {},
                None => {
                    let cand = ocandidates[oid.0 as usize].duplicate();
                    self.add(key, cand);
                },
            }
            taken = taken + 1;
        }
        proof {
            assert(opairs.skip(opairs.len() as int).len() == 0);
        }
    }
}

/// Registering the same external key with the same candidate twice yields
/// the same choice both times, and the second call changes nothing: neither
/// the candidate table nor the key mappings.
pub proof fn lemma_add_id_to_choice_idempotent<K: ExternalKey>(
    m0: CandidateMap<K>,
    m1: CandidateMap<K>,
    m2: CandidateMap<K>,
    k: K,
    cand: Candidate,
    r1: Choice,
    r2: Choice,
)
    requires
        add_id_to_choice_post(m0, k, cand, m1, r1),
        add_id_to_choice_post(m1, k, cand, m2, r2),
    ensures
        r2 == r1,
        m2.cands() == m1.cands(),
        m2.pairs() == m1.pairs(),
{
    match spec_lookup(m0.pairs(), k) {
        Some(id) => {
            assert(m1 == m0);
        },
        None => {
            match spec_name_pos(m0.cands(), cand.name@) {
                Some(i) => {
                    lemma_lookup_push_hit(m0.pairs(), k, CandidateId(i as u32));
                    assert(spec_lookup(m1.pairs(), k) == Some(CandidateId(i as u32)));
                },
                None => {
                    lemma_lookup_push_hit(m0.pairs(), k, CandidateId(m0.cands().len() as u32));
                    assert(spec_lookup(m1.pairs(), k) == Some(
                        CandidateId(m0.cands().len() as u32),
                    ));
                },
            }
        },
    }
}

} // verus!
