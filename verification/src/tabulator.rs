//! The instant-runoff tabulator: a deterministic state machine producing the
//! round-by-round allocation, elimination, and transfer record of a contest.

use vstd::prelude::*;

use crate::metadata::TabulationOptions;
use crate::model::{choices_in_range, CandidateId, Choice, NormalizedBallot};
use crate::sums::{
    lemma_weight_sum_elem_bound, lemma_weight_sum_nonneg, lemma_weight_sum_push,
    lemma_weight_sum_remove, lemma_weight_sum_split, lemma_weight_sum_suffix_step,
    lemma_weight_sum_update, weight_sum,
};

verus! {

/// Whom a pile of ballots counts toward: a candidate, or the exhausted pile.
#[derive(Clone, Copy, PartialEq, Eq, Structural, Hash, Debug)]
pub enum Allocatee {
    Candidate(CandidateId),
    Exhausted,
}

impl Allocatee {
    /// The allocatee a ballot with top choice `c` counts toward.
    pub open spec fn spec_from_choice(c: Choice) -> Allocatee {
        match c {
            Choice::Vote(id) => Allocatee::Candidate(id),
            _ => Allocatee::Exhausted,
        }
    }

    pub fn from_choice(c: Choice) -> (a: Allocatee)
        ensures
            a == Allocatee::spec_from_choice(c),
    {
        match c {
            Choice::Vote(id) => Allocatee::Candidate(id),
            _ => Allocatee::Exhausted,
        }
    }
}

/// One line of a round: an allocatee and the ballots currently counted for it.
#[derive(Clone, Copy, PartialEq, Eq, Structural, Debug)]
pub struct TabulatorAllocation {
    pub allocatee: Allocatee,
    pub votes: u32,
}

/// Movement of ballots from an eliminated candidate to their next preference.
#[derive(Clone, Copy, PartialEq, Eq, Structural, Debug)]
pub struct Transfer {
    pub from: CandidateId,
    pub to: Allocatee,
    pub count: u32,
}

/// One round of the tabulation, as serialized into the contest report.
#[derive(Clone, PartialEq, Eq, Debug)]
pub struct TabulatorRound {
    pub allocations: Vec<TabulatorAllocation>,
    pub undervote: u32,
    pub overvote: u32,
    pub continuing_ballots: u32,
    pub transfers: Vec<Transfer>,
}

/// Weight of one `(candidate, count)` entry: its vote count.
pub open spec fn vote_weight() -> spec_fn((CandidateId, u32)) -> int {
    |x: (CandidateId, u32)| x.1 as int
}

/// Weight of one transfer record: its ballot count.
pub open spec fn transfer_weight() -> spec_fn(Transfer) -> int {
    |t: Transfer| t.count as int
}

/// The order vote lines are reported in: descending by count, ties broken by
/// ascending candidate index.
pub open spec fn vote_le(a: (CandidateId, u32), b: (CandidateId, u32)) -> bool {
    a.1 > b.1 || (a.1 == b.1 && a.0.0 <= b.0.0)
}

pub open spec fn votes_sorted(s: Seq<(CandidateId, u32)>) -> bool {
    forall|i: int, j: int| 0 <= i < j < s.len() ==> #[trigger] vote_le(s[i], s[j])
}

/// The number of ballots considered allocated to each candidate at one stage
/// of tabulation, plus the exhausted count.
pub struct Allocations {
    pub votes: Vec<(CandidateId, u32)>,
    pub exhausted: u32,
}

impl Allocations {
    /// Sorts the given vote lines into reporting order (descending by count,
    /// ascending candidate index on ties).
    pub fn new(votes: Vec<(CandidateId, u32)>, exhausted: u32) -> (r: Allocations)
        ensures
            r.exhausted == exhausted,
            r.votes@.to_multiset() == votes@.to_multiset(),
            r.votes@.len() == votes@.len(),
            votes_sorted(r.votes@),
            weight_sum(r.votes@, vote_weight()) == weight_sum(votes@, vote_weight()),
    {
        broadcast use vstd::seq_lib::group_to_multiset_ensures;

        let ghost orig = votes@;
        let mut rest = votes;
        let mut sorted: Vec<(CandidateId, u32)> = Vec::new();
        proof {
            assert(sorted@.to_multiset().add(rest@.to_multiset()) =~= orig.to_multiset());
            assert(weight_sum(sorted@, vote_weight()) == 0);
        }
        while rest.len() > 0
            invariant
                sorted@.to_multiset().add(rest@.to_multiset()) == orig.to_multiset(),
                sorted@.len() + rest@.len() == orig.len(),
                votes_sorted(sorted@),
                forall|i: int, j: int|
                    0 <= i < sorted@.len() && 0 <= j < rest@.len() ==> #[trigger] vote_le(
                        sorted@[i],
                        rest@[j],
                    ),
                weight_sum(sorted@, vote_weight()) + weight_sum(rest@, vote_weight())
                    == weight_sum(orig, vote_weight()),
            decreases rest.len(),
        {
            let mut m: usize = 0;
            let mut k: usize = 1;
            while k < rest.len()
                invariant
                    0 < rest@.len(),
                    m < k <= rest@.len(),
                    forall|i: int| 0 <= i < k ==> #[trigger] vote_le(rest@[m as int], rest@[i]),
                decreases rest@.len() - k,
            {
                let a = rest[k];
                let b = rest[m];
                if a.1 > b.1 || (a.1 == b.1 && a.0.0 < b.0.0) {
                    proof {
                        assert forall|i: int| 0 <= i <= k as int implies vote_le(
                            rest@[k as int],
                            rest@[i],
                        ) by {
                            if i < k as int {
                                assert(vote_le(rest@[m as int], rest@[i]));
                            }
                        }
                    }
                    m = k;
                } else {
                    proof {
                        assert(vote_le(rest@[m as int], rest@[k as int]));
                    }
                }
                k = k + 1;
            }
            let ghost rest_old = rest@;
            let ghost sorted_old = sorted@;
            let x = rest.remove(m);
            sorted.push(x);
            proof {
                rest_old.to_multiset_ensures();
                sorted_old.to_multiset_ensures();
                assert(rest@ == rest_old.remove(m as int));
                assert(rest_old.contains(x));
                assert(rest_old.remove(m as int).to_multiset() =~= rest_old.to_multiset().remove(
                    rest_old[m as int],
                ));
                assert(rest@.to_multiset() =~= rest_old.to_multiset().remove(x));
                assert(sorted_old.push(x).to_multiset() =~= sorted_old.to_multiset().insert(x));
                assert(sorted@.to_multiset() =~= sorted_old.to_multiset().insert(x));
                assert(rest_old.to_multiset().count(x) > 0);
                assert(sorted@.to_multiset().add(rest@.to_multiset()) =~= orig.to_multiset());
                lemma_weight_sum_remove(rest_old, vote_weight(), m as int);
                lemma_weight_sum_push(sorted_old, vote_weight(), x);
                assert forall|i: int, j: int|
                    0 <= i < sorted@.len() && 0 <= j < rest@.len() implies #[trigger] vote_le(
                    sorted@[i],
                    rest@[j],
                ) by {
                    if i < sorted_old.len() {
                        if j < m {
                            assert(rest@[j] == rest_old[j]);
                        } else {
                            assert(rest@[j] == rest_old[j + 1]);
                        }
                    } else {
                        assert(sorted@[i] == x);
                        if j < m {
                            assert(vote_le(rest_old[m as int], rest_old[j]));
                        } else {
                            assert(vote_le(rest_old[m as int], rest_old[j + 1]));
                        }
                    }
                }
            }
        }
        proof {
            assert(rest@.to_multiset().len() == 0);
            assert(sorted@.to_multiset().add(rest@.to_multiset()) =~= sorted@.to_multiset());
            assert(weight_sum(rest@, vote_weight()) == 0);
        }
        Allocations { votes: sorted, exhausted }
    }

    /// Two vote-line sequences in reporting order with the same contents are
    /// identical: reporting order is a total order over distinct entries.
    pub proof fn lemma_sorted_votes_unique(a: Seq<(CandidateId, u32)>, b: Seq<(CandidateId, u32)>)
        requires
            votes_sorted(a),
            votes_sorted(b),
            a.to_multiset() == b.to_multiset(),
        ensures
            a =~= b,
        decreases a.len(),
    {
        a.to_multiset_ensures();
        b.to_multiset_ensures();
        if a.len() == 0 {
            assert(b.to_multiset().len() == 0);
        } else {
            assert(a.contains(a.first()));
            assert(a.to_multiset().count(a.first()) > 0);
            assert(b.to_multiset().count(a.first()) > 0);
            assert(b.contains(a.first()));
            let j = choose|j: int| 0 <= j < b.len() && b[j] == a.first();
            if j > 0 {
                assert(vote_le(b[0], b[j]));
            }
            assert(b.len() > 0);
            assert(b.contains(b.first()));
            assert(b.to_multiset().count(b.first()) > 0);
            assert(a.to_multiset().count(b.first()) > 0);
            assert(a.contains(b.first()));
            let i = choose|i: int| 0 <= i < a.len() && a[i] == b.first();
            if i > 0 {
                assert(vote_le(a[0], a[i]));
            }
            assert(a.first() == b.first());
            let a1 = a.drop_first();
            let b1 = b.drop_first();
            assert(a.remove(0) =~= a1);
            assert(b.remove(0) =~= b1);
            assert(a1.to_multiset() =~= a.to_multiset().remove(a.first()));
            assert(b1.to_multiset() =~= b.to_multiset().remove(b.first()));
            assert(votes_sorted(a1)) by {
                assert forall|p: int, q: int| 0 <= p < q < a1.len() implies #[trigger] vote_le(
                    a1[p],
                    a1[q],
                ) by {
                    assert(vote_le(a[p + 1], a[q + 1]));
                }
            }
            assert(votes_sorted(b1)) by {
                assert forall|p: int, q: int| 0 <= p < q < b1.len() implies #[trigger] vote_le(
                    b1[p],
                    b1[q],
                ) by {
                    assert(vote_le(b[p + 1], b[q + 1]));
                }
            }
            Self::lemma_sorted_votes_unique(a1, b1);
            assert(a =~= seq![a.first()] + a1);
            assert(b =~= seq![b.first()] + b1);
        }
    }

    /// The number of continuing (non-exhausted) ballots in this allocation.
    pub fn continuing(&self) -> (r: u32)
        requires
            weight_sum(self.votes@, vote_weight()) <= u32::MAX,
        ensures
            r as int == weight_sum(self.votes@, vote_weight()),
    {
        proof {
            assert(forall|i: int|
                0 <= i < self.votes@.len() ==> vote_weight()(#[trigger] self.votes@[i]) >= 0);
        }
        let mut sum: u32 = 0;
        let mut i: usize = 0;
        while i < self.votes.len()
            invariant
                i <= self.votes@.len(),
                sum as int == weight_sum(self.votes@.take(i as int), vote_weight()),
                weight_sum(self.votes@, vote_weight()) <= u32::MAX,
            decreases self.votes@.len() - i,
        {
            proof {
                lemma_weight_sum_split(self.votes@, vote_weight(), i + 1);
                assert(self.votes@.take(i + 1) =~= self.votes@.take(i as int).push(
                    self.votes@[i as int],
                ));
                lemma_weight_sum_push(self.votes@.take(i as int), vote_weight(), self.votes@[i as int]);
                assert(forall|k: int|
                    0 <= k < self.votes@.skip(i + 1).len() ==> vote_weight()(
                        #[trigger] self.votes@.skip(i + 1)[k],
                    ) >= 0);
                lemma_weight_sum_nonneg(self.votes@.skip(i + 1), vote_weight());
            }
            sum = sum + self.votes[i].1;
            i = i + 1;
        }
        proof {
            assert(self.votes@.take(i as int) =~= self.votes@);
        }
        sum
    }

    /// True when the leading candidate already holds more votes than all other
    /// continuing candidates combined.
    pub fn is_final(&self) -> (r: bool)
        requires
            self.votes@.len() > 0,
            weight_sum(self.votes@, vote_weight()) <= u32::MAX,
        ensures
            r == (self.votes@[0].1 > weight_sum(self.votes@, vote_weight()) - self.votes@[0].1),
    {
        let total = self.continuing();
        let first_votes = self.votes[0].1;
        proof {
            lemma_weight_sum_split(self.votes@, vote_weight(), 1);
            assert(self.votes@.take(1) =~= seq![self.votes@[0]]);
            assert(self.votes@.take(1).drop_first() =~= Seq::<(CandidateId, u32)>::empty());
            assert(weight_sum(self.votes@.take(1), vote_weight()) == self.votes@[0].1 as int);
            assert(forall|k: int|
                0 <= k < self.votes@.skip(1).len() ==> vote_weight()(
                    #[trigger] self.votes@.skip(1)[k],
                ) >= 0);
            lemma_weight_sum_nonneg(self.votes@.skip(1), vote_weight());
        }
        let rest_votes = total - first_votes;
        first_votes > rest_votes
    }

    /// The `TabulatorAllocation` lines of this allocation: every candidate
    /// line in order, with the exhausted pile always last.
    pub fn into_vec(self) -> (r: Vec<TabulatorAllocation>)
        ensures
            r@.len() == self.votes@.len() + 1,
            forall|i: int|
                0 <= i < self.votes@.len() ==> r@[i] == (TabulatorAllocation {
                    allocatee: Allocatee::Candidate(self.votes@[i].0),
                    votes: self.votes@[i].1,
                }),
            r@[self.votes@.len() as int] == (TabulatorAllocation {
                allocatee: Allocatee::Exhausted,
                votes: self.exhausted,
            }),
    {
        let mut v: Vec<TabulatorAllocation> = Vec::new();
        let mut i: usize = 0;
        while i < self.votes.len()
            invariant
                i <= self.votes@.len(),
                v@.len() == i,
                forall|k: int|
                    0 <= k < i ==> v@[k] == (TabulatorAllocation {
                        allocatee: Allocatee::Candidate(self.votes@[k].0),
                        votes: self.votes@[k].1,
                    }),
            decreases self.votes@.len() - i,
        {
            let (id, votes) = self.votes[i];
            v.push(TabulatorAllocation { allocatee: Allocatee::Candidate(id), votes });
            i = i + 1;
        }
        v.push(TabulatorAllocation { allocatee: Allocatee::Exhausted, votes: self.exhausted });
        v
    }
}

/// Every ballot of `bs` refers only to candidates below `n`.
pub open spec fn ballots_in_range(bs: Seq<NormalizedBallot>, n: int) -> bool {
    forall|i: int| 0 <= i < bs.len() ==> choices_in_range(#[trigger] bs[i].choices@, n)
}

/// `from` is one of the candidates on the eliminated suffix of the sorted
/// vote lines `sv`.
pub open spec fn from_in_suffix(sv: Seq<(CandidateId, u32)>, es: int, from: CandidateId) -> bool {
    exists|q: int| es <= q < sv.len() && (#[trigger] sv[q]).0 == from
}

/// A candidate line occurs in a round's allocation list.
pub open spec fn appears_in(allocs: Seq<TabulatorAllocation>, c: CandidateId) -> bool {
    exists|i: int| 0 <= i < allocs.len() && allocs[i].allocatee == Allocatee::Candidate(c)
}

/// The vote count reported for candidate `c` (the first matching line; 0 when
/// absent).
pub open spec fn votes_for(allocs: Seq<TabulatorAllocation>, c: CandidateId) -> int
    decreases allocs.len(),
{
    if allocs.len() == 0 {
        0
    } else if allocs.first().allocatee == Allocatee::Candidate(c) {
        allocs.first().votes as int
    } else {
        votes_for(allocs.drop_first(), c)
    }
}

/// Total votes held in round `a1` by candidates that no longer appear in
/// round `a2`: the votes surrendered by the candidates eliminated in between.
pub open spec fn dropped_votes(a1: Seq<TabulatorAllocation>, a2: Seq<TabulatorAllocation>) -> int
    decreases a1.len(),
{
    if a1.len() == 0 {
        0
    } else {
        (match a1.first().allocatee {
            Allocatee::Candidate(c) => if !appears_in(a2, c) {
                a1.first().votes as int
            } else {
                0
            },
            Allocatee::Exhausted => 0,
        }) + dropped_votes(a1.drop_first(), a2)
    }
}

/// If candidate lines are pairwise distinct and line `k` carries `c`, then the
/// reported count for `c` is line `k`'s.
pub proof fn lemma_votes_for_at(allocs: Seq<TabulatorAllocation>, c: CandidateId, k: int)
    requires
        0 <= k < allocs.len(),
        allocs[k].allocatee == Allocatee::Candidate(c),
        forall|i: int, j: int|
            0 <= i < j < allocs.len() ==> #[trigger] allocs[i].allocatee != #[trigger] allocs[j].allocatee
                || allocs[i].allocatee == Allocatee::Exhausted,
    ensures
        votes_for(allocs, c) == allocs[k].votes as int,
    decreases allocs.len(),
{
    if k == 0 {
    } else {
        assert(allocs[0].allocatee != allocs[k].allocatee || allocs[0].allocatee
            == Allocatee::Exhausted);
        let a1 = allocs.drop_first();
        assert(a1[k - 1] == allocs[k]);
        assert(forall|i: int, j: int|
            0 <= i < j < a1.len() ==> #[trigger] a1[i].allocatee != #[trigger] a1[j].allocatee
                || a1[i].allocatee == Allocatee::Exhausted) by {
            assert(forall|i: int| 0 <= i < a1.len() ==> a1[i] == allocs[i + 1]);
        }
        lemma_votes_for_at(a1, c, k - 1);
    }
}

/// When a candidate appears nowhere in the list, the reported count is 0.
pub proof fn lemma_votes_for_absent(allocs: Seq<TabulatorAllocation>, c: CandidateId)
    requires
        !appears_in(allocs, c),
    ensures
        votes_for(allocs, c) == 0,
    decreases allocs.len(),
{
    if allocs.len() > 0 {
        assert(allocs.first() == allocs[0]);
        assert(allocs[0].allocatee != Allocatee::Candidate(c));
        let a1 = allocs.drop_first();
        assert(!appears_in(a1, c)) by {
            assert(forall|i: int| 0 <= i < a1.len() ==> a1[i] == allocs[i + 1]);
        }
        lemma_votes_for_absent(a1, c);
    }
}

/// The tabulator's working state: per-candidate ballot piles, the undervote
/// and overvote piles, the set of already-eliminated candidates, and the
/// transfers that produced the current round.
pub struct TabulatorState {
    /// Pile `c` holds the ballots currently counted for candidate `c`;
    /// `None` for candidates with no pile (never bucketed, or eliminated).
    pub candidate_ballots: Vec<Option<Vec<NormalizedBallot>>>,
    /// Ballots whose current top rank is an undervote.
    pub undervote_ballots: Vec<NormalizedBallot>,
    /// Ballots whose current top rank is an overvote.
    pub overvote_ballots: Vec<NormalizedBallot>,
    /// `eliminated[c]` once candidate `c` has been eliminated.
    pub eliminated: Vec<bool>,
    /// Transfers incoming from the prior round.
    pub transfers: Vec<Transfer>,
}

impl TabulatorState {
    /// Number of candidate slots tracked by this state.
    pub open spec fn slots(self) -> int {
        self.candidate_ballots@.len() as int
    }

    pub open spec fn has_bucket(self, c: int) -> bool {
        0 <= c < self.slots() && match self.candidate_ballots@[c] {
            Some(_) => true,
            None => false,
        }
    }

    pub open spec fn bucket(self, c: int) -> Seq<NormalizedBallot> {
        if self.has_bucket(c) {
            match self.candidate_ballots@[c] {
                Some(b) => b@,
                None => Seq::empty(),
            }
        } else {
            Seq::empty()
        }
    }

    pub open spec fn bucket_len(self, c: int) -> int {
        self.bucket(c).len() as int
    }

    pub open spec fn is_eliminated(self, c: int) -> bool {
        0 <= c < self.eliminated@.len() && self.eliminated@[c]
    }

    /// The candidate vote lines of this state in ascending candidate order:
    /// one `(candidate, pile size)` entry per existing pile below `k`.
    pub open spec fn cand_votes_prefix(self, k: int) -> Seq<(CandidateId, u32)>
        decreases k,
    {
        if k <= 0 {
            Seq::empty()
        } else {
            let p = self.cand_votes_prefix(k - 1);
            if self.has_bucket(k - 1) {
                p.push((CandidateId((k - 1) as u32), self.bucket_len(k - 1) as u32))
            } else {
                p
            }
        }
    }

    pub open spec fn cand_votes(self) -> Seq<(CandidateId, u32)> {
        self.cand_votes_prefix(self.slots())
    }

    /// Ballots currently allocated to candidates.
    pub open spec fn cand_total(self) -> int {
        weight_sum(self.cand_votes(), vote_weight())
    }

    /// Every ballot held anywhere in this state.
    pub open spec fn total_ballots(self) -> int {
        self.cand_total() + self.undervote_ballots@.len() + self.overvote_ballots@.len()
    }

    pub open spec fn wf(self) -> bool {
        &&& self.eliminated@.len() == self.candidate_ballots@.len()
        &&& self.slots() <= u32::MAX
        &&& forall|c: int| 0 <= c < self.slots() ==> #[trigger] self.bucket_len(c) <= u32::MAX
        &&& self.total_ballots() <= u32::MAX
        &&& forall|c: int| self.is_eliminated(c) ==> !self.has_bucket(c)
        &&& forall|c: int| #[trigger] self.has_bucket(c) ==> self.bucket_len(c) >= 1
        &&& forall|c: int|
            0 <= c < self.slots() ==> ballots_in_range(#[trigger] self.bucket(c), self.slots())
        &&& ballots_in_range(self.undervote_ballots@, self.slots())
        &&& ballots_in_range(self.overvote_ballots@, self.slots())
    }

    /// Structural facts about the candidate vote lines: entries are exactly
    /// the existing piles, in ascending candidate order, with their sizes.
    pub proof fn lemma_cand_votes_prefix_props(self, k: int)
        requires
            0 <= k <= self.slots(),
            self.slots() <= u32::MAX,
        ensures
            forall|i: int|
                0 <= i < self.cand_votes_prefix(k).len() ==> {
                    let e = #[trigger] self.cand_votes_prefix(k)[i];
                    &&& 0 <= e.0.0 < k
                    &&& self.has_bucket(e.0.0 as int)
                    &&& e.1 as int == self.bucket_len(e.0.0 as int) as u32 as int
                },
            forall|i: int, j: int|
                0 <= i < j < self.cand_votes_prefix(k).len()
                    ==> (#[trigger] self.cand_votes_prefix(k)[i]).0.0
                    < (#[trigger] self.cand_votes_prefix(k)[j]).0.0,
            forall|c: int|
                0 <= c < k && self.has_bucket(c) ==> exists|i: int|
                    0 <= i < self.cand_votes_prefix(k).len()
                        && (#[trigger] self.cand_votes_prefix(k)[i]).0.0 == c,
        decreases k,
    {
        if k > 0 {
            self.lemma_cand_votes_prefix_props(k - 1);
            let p = self.cand_votes_prefix(k - 1);
            if self.has_bucket(k - 1) {
                let e = (CandidateId((k - 1) as u32), self.bucket_len(k - 1) as u32);
                assert(self.cand_votes_prefix(k) == p.push(e));
                assert(forall|i: int| 0 <= i < p.len() ==> p.push(e)[i] == p[i]);
                assert(p.push(e)[p.len() as int] == e);
            }
            assert forall|c: int| 0 <= c < k && self.has_bucket(c) implies exists|i: int|
                0 <= i < self.cand_votes_prefix(k).len()
                    && (#[trigger] self.cand_votes_prefix(k)[i]).0.0 == c by {
                if c == k - 1 {
                    assert(self.cand_votes_prefix(k)[p.len() as int].0.0 == c);
                } else {
                    let i = choose|i: int| 0 <= i < p.len() && (#[trigger] p[i]).0.0 == c;
                    assert(self.cand_votes_prefix(k)[i].0.0 == c);
                }
            }
        }
    }

    /// Two states whose piles agree below `k` have the same vote lines there.
    pub proof fn lemma_cand_votes_prefix_congruence(s1: TabulatorState, s2: TabulatorState, k: int)
        requires
            forall|c: int|
                0 <= c < k ==> #[trigger] s1.has_bucket(c) == s2.has_bucket(c)
                    && s1.bucket_len(c) == s2.bucket_len(c),
        ensures
            s1.cand_votes_prefix(k) == s2.cand_votes_prefix(k),
        decreases k,
    {
        if k > 0 {
            Self::lemma_cand_votes_prefix_congruence(s1, s2, k - 1);
        }
    }

    /// Changing one pile changes the candidate vote total by exactly the
    /// change in that pile's size.
    pub proof fn lemma_cand_votes_prefix_update(
        s1: TabulatorState,
        s2: TabulatorState,
        c: int,
        k: int,
    )
        requires
            0 <= c < k,
            forall|d: int|
                0 <= d < k && d != c ==> #[trigger] s1.has_bucket(d) == s2.has_bucket(d)
                    && s1.bucket_len(d) == s2.bucket_len(d),
            s1.bucket_len(c) <= u32::MAX,
            s2.bucket_len(c) <= u32::MAX,
        ensures
            weight_sum(s2.cand_votes_prefix(k), vote_weight()) - weight_sum(
                s1.cand_votes_prefix(k),
                vote_weight(),
            ) == s2.bucket_len(c) - s1.bucket_len(c),
        decreases k,
    {
        if k - 1 == c {
            Self::lemma_cand_votes_prefix_congruence(s1, s2, k - 1);
            if s1.has_bucket(c) {
                lemma_weight_sum_push(
                    s1.cand_votes_prefix(k - 1),
                    vote_weight(),
                    (CandidateId(c as u32), s1.bucket_len(c) as u32),
                );
            }
            if s2.has_bucket(c) {
                lemma_weight_sum_push(
                    s2.cand_votes_prefix(k - 1),
                    vote_weight(),
                    (CandidateId(c as u32), s2.bucket_len(c) as u32),
                );
            }
        } else {
            Self::lemma_cand_votes_prefix_update(s1, s2, c, k - 1);
            if s1.has_bucket(k - 1) {
                lemma_weight_sum_push(
                    s1.cand_votes_prefix(k - 1),
                    vote_weight(),
                    (CandidateId((k - 1) as u32), s1.bucket_len(k - 1) as u32),
                );
                lemma_weight_sum_push(
                    s2.cand_votes_prefix(k - 1),
                    vote_weight(),
                    (CandidateId((k - 1) as u32), s2.bucket_len(k - 1) as u32),
                );
            }
        }
    }

    /// The candidate vote total is never negative.
    pub proof fn lemma_cand_votes_nonneg(self, k: int)
        ensures
            weight_sum(self.cand_votes_prefix(k), vote_weight()) >= 0,
    {
        let sv = self.cand_votes_prefix(k);
        assert(forall|i: int| 0 <= i < sv.len() ==> vote_weight()(#[trigger] sv[i]) >= 0);
        lemma_weight_sum_nonneg(sv, vote_weight());
    }

    /// Each pile's size is bounded by the candidate vote total.
    pub proof fn lemma_bucket_le_prefix_total(self, c: int, k: int)
        requires
            0 <= c < k,
            k <= self.slots(),
            self.slots() <= u32::MAX,
            forall|d: int| 0 <= d < self.slots() ==> #[trigger] self.bucket_len(d) <= u32::MAX,
        ensures
            self.bucket_len(c) <= weight_sum(self.cand_votes_prefix(k), vote_weight()),
            weight_sum(self.cand_votes_prefix(k), vote_weight()) >= 0,
        decreases k,
    {
        self.lemma_cand_votes_prefix_props(k);
        if k - 1 == c {
            if k - 1 > 0 {
                self.lemma_bucket_le_prefix_total(0, k - 1);
            }
            if self.has_bucket(k - 1) {
                lemma_weight_sum_push(
                    self.cand_votes_prefix(k - 1),
                    vote_weight(),
                    (CandidateId((k - 1) as u32), self.bucket_len(k - 1) as u32),
                );
            }
            if k - 1 == 0 {
                assert(weight_sum(self.cand_votes_prefix(0), vote_weight()) == 0);
            }
        } else {
            self.lemma_bucket_le_prefix_total(c, k - 1);
            if self.has_bucket(k - 1) {
                lemma_weight_sum_push(
                    self.cand_votes_prefix(k - 1),
                    vote_weight(),
                    (CandidateId((k - 1) as u32), self.bucket_len(k - 1) as u32),
                );
            }
        }
    }
}

/// The ballots of `bs` whose current top choice is `ch`, in order.
pub open spec fn top_filter(bs: Seq<NormalizedBallot>, ch: Choice) -> Seq<NormalizedBallot>
    decreases bs.len(),
{
    if bs.len() == 0 {
        Seq::empty()
    } else {
        let p = top_filter(bs.drop_last(), ch);
        if bs.last().spec_top_vote() == ch {
            p.push(bs.last())
        } else {
            p
        }
    }
}

/// The candidate vote lines of a round's allocation list (everything before
/// the trailing exhausted line), as `(candidate, count)` pairs.
pub open spec fn cand_lines(allocs: Seq<TabulatorAllocation>) -> Seq<(CandidateId, u32)> {
    Seq::new(
        (allocs.len() - 1) as nat,
        |i: int|
            (
                match allocs[i].allocatee {
                    Allocatee::Candidate(c) => c,
                    Allocatee::Exhausted => CandidateId(0),
                },
                allocs[i].votes,
            ),
    )
}

/// Links a round's allocation lines, produced from the sorted vote lines
/// `sv`, back to the state's piles.
pub proof fn lemma_allocs_from_votes(
    allocs: Seq<TabulatorAllocation>,
    sv: Seq<(CandidateId, u32)>,
    s: TabulatorState,
)
    requires
        s.slots() <= u32::MAX,
        forall|c: int| 0 <= c < s.slots() ==> #[trigger] s.bucket_len(c) <= u32::MAX,
        allocs.len() == sv.len() + 1,
        forall|i: int|
            0 <= i < sv.len() ==> #[trigger] allocs[i] == (TabulatorAllocation {
                allocatee: Allocatee::Candidate(sv[i].0),
                votes: sv[i].1,
            }),
        allocs[allocs.len() - 1].allocatee == Allocatee::Exhausted,
        sv.to_multiset() == s.cand_votes().to_multiset(),
    ensures
        forall|c: CandidateId|
            #[trigger] appears_in(allocs, c) <==> s.has_bucket(c.0 as int),
        forall|c: CandidateId|
            appears_in(allocs, c) ==> #[trigger] votes_for(allocs, c) == s.bucket_len(c.0 as int),
        forall|c: CandidateId|
            !appears_in(allocs, c) ==> #[trigger] votes_for(allocs, c) == 0,
        forall|i: int, j: int| 0 <= i < j < sv.len() ==> sv[i].0.0 != sv[j].0.0,
        forall|i: int|
            0 <= i < sv.len() ==> s.has_bucket((#[trigger] sv[i]).0.0 as int) && sv[i].1 as int
                == s.bucket_len(sv[i].0.0 as int),
        cand_lines(allocs) =~= sv,
{
    let cv = s.cand_votes();
    s.lemma_cand_votes_prefix_props(s.slots());
    sv.to_multiset_ensures();
    cv.to_multiset_ensures();
    // Entries of `sv` are entries of the state's vote lines.
    assert forall|i: int| 0 <= i < sv.len() implies s.has_bucket((#[trigger] sv[i]).0.0 as int)
        && sv[i].1 as int == s.bucket_len(sv[i].0.0 as int) by {
        assert(sv.contains(sv[i]));
        assert(sv.to_multiset().count(sv[i]) > 0);
        assert(cv.to_multiset().count(sv[i]) > 0);
        assert(cv.contains(sv[i]));
        let k = choose|k: int| 0 <= k < cv.len() && cv[k] == sv[i];
        assert(s.has_bucket(cv[k].0.0 as int));
    }
    // Distinct candidate ids across `sv`.
    assert forall|i: int, j: int| 0 <= i < j < sv.len() implies sv[i].0.0 != sv[j].0.0 by {
        if sv[i].0.0 == sv[j].0.0 {
            assert(sv[i].1 as int == s.bucket_len(sv[i].0.0 as int));
            assert(sv[j].1 as int == s.bucket_len(sv[j].0.0 as int));
            assert(sv[i] == sv[j]);
            let e = sv[i];
            // Two positions for `e` in `sv` mean its count is at least 2.
            let svr = sv.remove(i);
            assert(svr.to_multiset() =~= sv.to_multiset().remove(e));
            assert(svr[j - 1] == sv[j]);
            assert(svr.contains(e));
            svr.to_multiset_ensures();
            assert(svr.to_multiset().count(e) > 0);
            assert(sv.to_multiset().count(e) >= 2);
            // But the state's vote lines hold `e` at most once.
            assert(cv.to_multiset().count(e) >= 2);
            let k1 = choose|k1: int| 0 <= k1 < cv.len() && cv[k1] == e;
            let cvr = cv.remove(k1);
            cvr.to_multiset_ensures();
            assert(cvr.to_multiset() =~= cv.to_multiset().remove(e));
            assert(cvr.to_multiset().count(e) >= 1);
            assert(cvr.contains(e));
            let k2 = choose|k2: int| 0 <= k2 < cvr.len() && cvr[k2] == e;
            if k2 < k1 {
                assert(cv[k2] == e);
                assert(cv[k2].0.0 < cv[k1].0.0);
            } else {
                assert(cv[k2 + 1] == e);
                assert(cv[k1].0.0 < cv[k2 + 1].0.0);
            }
        }
    }
    // A candidate appears exactly when it has a pile.
    assert forall|c: CandidateId| #[trigger] appears_in(allocs, c) implies s.has_bucket(
        c.0 as int,
    ) by {
        let i = choose|i: int|
            0 <= i < allocs.len() && allocs[i].allocatee == Allocatee::Candidate(c);
        assert(i < sv.len());
        assert(sv[i].0 == c);
    }
    assert forall|c: CandidateId| s.has_bucket(c.0 as int) implies #[trigger] appears_in(
        allocs,
        c,
    ) by {
        let k = choose|k: int| 0 <= k < cv.len() && (#[trigger] cv[k]).0.0 == c.0 as int;
        assert(cv[k].0 == c);
        assert(cv.contains(cv[k]));
        assert(cv.to_multiset().count(cv[k]) > 0);
        assert(sv.to_multiset().count(cv[k]) > 0);
        assert(sv.contains(cv[k]));
        let i = choose|i: int| 0 <= i < sv.len() && sv[i] == cv[k];
        assert(allocs[i].allocatee == Allocatee::Candidate(c));
    }
    // Reported counts equal pile sizes.
    assert forall|c: CandidateId| appears_in(allocs, c) implies #[trigger] votes_for(allocs, c)
        == s.bucket_len(c.0 as int) by {
        let i = choose|i: int|
            0 <= i < allocs.len() && allocs[i].allocatee == Allocatee::Candidate(c);
        assert(i < sv.len());
        assert(forall|p: int, q: int|
            0 <= p < q < allocs.len() ==> #[trigger] allocs[p].allocatee
                != #[trigger] allocs[q].allocatee || allocs[p].allocatee == Allocatee::Exhausted)
            by {
            assert forall|p: int, q: int|
                0 <= p < q < allocs.len() && allocs[p].allocatee != Allocatee::Exhausted implies
                allocs[p].allocatee != allocs[q].allocatee by {
                if q < sv.len() {
                    assert(sv[p].0.0 != sv[q].0.0);
                }
            }
        }
        lemma_votes_for_at(allocs, c, i);
    }
    assert forall|c: CandidateId| !appears_in(allocs, c) implies #[trigger] votes_for(allocs, c)
        == 0 by {
        lemma_votes_for_absent(allocs, c);
    }
}

impl TabulatorState {
    /// Buckets every ballot by its current top choice: candidate piles for
    /// first preferences, and the undervote and overvote piles.
    pub fn new(ballots: Vec<NormalizedBallot>) -> (s: TabulatorState)
        requires
            ballots@.len() <= u32::MAX,
            forall|i: int|
                0 <= i < ballots@.len() ==> choices_in_range(
                    #[trigger] ballots@[i].choices@,
                    u32::MAX as int,
                ),
        ensures
            s.wf(),
            s.transfers@.len() == 0,
            forall|c: int| !s.is_eliminated(c),
            s.total_ballots() == ballots@.len(),
            forall|c: int|
                0 <= c < s.slots() ==> #[trigger] s.bucket(c) == top_filter(
                    ballots@,
                    Choice::Vote(CandidateId(c as u32)),
                ),
            forall|c: int|
                0 <= c < s.slots() ==> (#[trigger] s.has_bucket(c) <==> top_filter(
                    ballots@,
                    Choice::Vote(CandidateId(c as u32)),
                ).len() > 0),
            s.undervote_ballots@ == top_filter(ballots@, Choice::Undervote),
            s.overvote_ballots@ == top_filter(ballots@, Choice::Overvote),
            forall|i: int|
                0 <= i < ballots@.len() ==> choices_in_range(
                    #[trigger] ballots@[i].choices@,
                    s.slots(),
                ),
    {
        let ghost orig = ballots@;
        // First pass: how many candidate slots the ballots reference.
        let mut n_slots: u32 = 0;
        let mut i: usize = 0;
        while i < ballots.len()
            invariant
                i <= ballots@.len(),
                ballots@ == orig,
                ballots@.len() <= u32::MAX,
                forall|bi: int|
                    0 <= bi < ballots@.len() ==> choices_in_range(
                        #[trigger] ballots@[bi].choices@,
                        u32::MAX as int,
                    ),
                forall|bi: int|
                    0 <= bi < i ==> choices_in_range(
                        #[trigger] ballots@[bi].choices@,
                        n_slots as int,
                    ),
            decreases ballots@.len() - i,
        {
            let mut j: usize = 0;
            while j < ballots[i].choices.len()
                invariant
                    i < ballots@.len(),
                    j <= ballots@[i as int].choices@.len(),
                    ballots@ == orig,
                    ballots@.len() <= u32::MAX,
                    forall|bi: int|
                        0 <= bi < ballots@.len() ==> choices_in_range(
                            #[trigger] ballots@[bi].choices@,
                            u32::MAX as int,
                        ),
                    forall|bi: int|
                        0 <= bi < i ==> choices_in_range(
                            #[trigger] ballots@[bi].choices@,
                            n_slots as int,
                        ),
                    forall|cj: int|
                        0 <= cj < j ==> match #[trigger] ballots@[i as int].choices@[cj] {
                            Choice::Vote(c) => c.0 < n_slots,
                            _ => true,
                        },
                decreases ballots@[i as int].choices@.len() - j,
            {
                match ballots[i].choices[j] {
                    Choice::Vote(c) => {
                        proof {
                            assert(choices_in_range(ballots@[i as int].choices@, u32::MAX as int));
                        }
                        if c.0 >= n_slots {
                            n_slots = c.0 + 1;
                        }
                    },
                    _ => {},
                }
                j = j + 1;
            }
            i = i + 1;
        }
        // Empty state with `n_slots` candidate slots.
        let mut st = TabulatorState {
            candidate_ballots: Vec::new(),
            undervote_ballots: Vec::new(),
            overvote_ballots: Vec::new(),
            eliminated: Vec::new(),
            transfers: Vec::new(),
        };
        let mut c: usize = 0;
        while c < n_slots as usize
            invariant
                c <= n_slots as usize,
                st.candidate_ballots@.len() == c,
                st.eliminated@.len() == c,
                forall|d: int| 0 <= d < c ==> !#[trigger] st.has_bucket(d),
                forall|d: int| 0 <= d < c ==> !#[trigger] st.eliminated@[d],
                st.undervote_ballots@.len() == 0,
                st.overvote_ballots@.len() == 0,
                st.transfers@.len() == 0,
            decreases n_slots as usize - c,
        {
            let ghost stp = st;
            st.candidate_ballots.push(None);
            st.eliminated.push(false);
            proof {
                assert forall|d: int| 0 <= d < c + 1 implies !st.has_bucket(d) by {
                    if d < c {
                        assert(st.candidate_ballots@[d] == stp.candidate_ballots@[d]);
                        assert(!stp.has_bucket(d));
                    } else {
                        assert(st.candidate_ballots@[d] is None);
                    }
                }
            }
            c = c + 1;
        }
        // Second pass: move each ballot into the pile of its top choice.
        let mut ballots = ballots;
        let mut placed: usize = 0;
        proof {
            assert(ballots@ =~= orig.skip(0));
            assert(orig.take(0) =~= Seq::<NormalizedBallot>::empty());
            TabulatorState::lemma_cand_votes_prefix_congruence(
                st,
                st,
                st.slots(),
            );
            st.lemma_cand_votes_nonneg(st.slots());
            assert(forall|d: int|
                0 <= d < st.slots() ==> #[trigger] st.bucket(d) =~= top_filter(
                    orig.take(0),
                    Choice::Vote(CandidateId(d as u32)),
                ));
            assert(st.cand_votes_prefix(st.slots()).len() == 0) by {
                st.lemma_cand_votes_prefix_props(st.slots());
                if st.cand_votes().len() > 0 {
                    assert(st.has_bucket(st.cand_votes()[0].0.0 as int));
                }
            }
            assert(st.total_ballots() == 0);
        }
        while ballots.len() > 0
            invariant
                placed <= orig.len(),
                ballots@ == orig.skip(placed as int),
                orig.len() <= u32::MAX,
                forall|bi: int|
                    0 <= bi < orig.len() ==> choices_in_range(
                        #[trigger] orig[bi].choices@,
                        n_slots as int,
                    ),
                st.slots() == n_slots as int,
                st.eliminated@.len() == n_slots as int,
                forall|d: int| 0 <= d < st.slots() ==> !#[trigger] st.eliminated@[d],
                st.transfers@.len() == 0,
                forall|d: int|
                    0 <= d < st.slots() ==> #[trigger] st.bucket(d) == top_filter(
                        orig.take(placed as int),
                        Choice::Vote(CandidateId(d as u32)),
                    ),
                forall|d: int|
                    0 <= d < st.slots() ==> (#[trigger] st.has_bucket(d) <==> top_filter(
                        orig.take(placed as int),
                        Choice::Vote(CandidateId(d as u32)),
                    ).len() > 0),
                st.undervote_ballots@ == top_filter(orig.take(placed as int), Choice::Undervote),
                st.overvote_ballots@ == top_filter(orig.take(placed as int), Choice::Overvote),
                st.total_ballots() == placed,
                forall|d: int| 0 <= d < st.slots() ==> #[trigger] st.bucket_len(d) <= placed,
                forall|d: int|
                    0 <= d < st.slots() ==> ballots_in_range(#[trigger] st.bucket(d), st.slots()),
                ballots_in_range(st.undervote_ballots@, st.slots()),
                ballots_in_range(st.overvote_ballots@, st.slots()),
            decreases ballots@.len(),
        {
            let ghost st0 = st;
            let b = ballots.remove(0);
            proof {
                assert(b == orig[placed as int]);
                assert(ballots@ =~= orig.skip(placed as int + 1));
                assert(orig.take(placed as int + 1) =~= orig.take(placed as int).push(b));
                assert(orig.take(placed as int + 1).drop_last() =~= orig.take(placed as int));
                assert(choices_in_range(orig[placed as int].choices@, n_slots as int));
            }
            let top = b.top_vote();
            match top {
                Choice::Undervote => {
                    st.undervote_ballots.push(b);
                    proof {
                        TabulatorState::lemma_cand_votes_prefix_congruence(st0, st, st.slots());
                        assert forall|d: int| 0 <= d < st.slots() implies #[trigger] top_filter(
                            orig.take(placed as int + 1),
                            Choice::Vote(CandidateId(d as u32)),
                        ) == st.bucket(d) by {
                            assert(st.bucket(d) == st0.bucket(d));
                            assert(top_filter(
                                orig.take(placed as int + 1),
                                Choice::Vote(CandidateId(d as u32)),
                            ) == top_filter(
                                orig.take(placed as int),
                                Choice::Vote(CandidateId(d as u32)),
                            ));
                        }
                        assert(top_filter(orig.take(placed as int + 1), Choice::Undervote)
                            == top_filter(orig.take(placed as int), Choice::Undervote).push(b));
                        assert(top_filter(orig.take(placed as int + 1), Choice::Overvote)
                            == top_filter(orig.take(placed as int), Choice::Overvote));
                        assert(st.candidate_ballots@ == st0.candidate_ballots@);
                        assert forall|d: int| 0 <= d < st.slots() implies (#[trigger] st.has_bucket(
                            d,
                        ) <==> top_filter(
                            orig.take(placed as int + 1),
                            Choice::Vote(CandidateId(d as u32)),
                        ).len() > 0) by {
                            assert(st.has_bucket(d) == st0.has_bucket(d));
                            assert(top_filter(
                                orig.take(placed as int + 1),
                                Choice::Vote(CandidateId(d as u32)),
                            ) == top_filter(
                                orig.take(placed as int),
                                Choice::Vote(CandidateId(d as u32)),
                            ));
                        }
                        assert forall|d: int| 0 <= d < st.slots() implies #[trigger] st.bucket_len(
                            d,
                        ) <= placed as int + 1 by {
                            assert(st.bucket_len(d) == st0.bucket_len(d));
                        }
                        assert forall|d: int| 0 <= d < st.slots() implies ballots_in_range(
                            #[trigger] st.bucket(d),
                            st.slots(),
                        ) by {
                            assert(st.bucket(d) == st0.bucket(d));
                            assert(ballots_in_range(st0.bucket(d), st0.slots()));
                        }
                    }
                },
                Choice::Overvote => {
                    st.overvote_ballots.push(b);
                    proof {
                        TabulatorState::lemma_cand_votes_prefix_congruence(st0, st, st.slots());
                        assert forall|d: int| 0 <= d < st.slots() implies #[trigger] top_filter(
                            orig.take(placed as int + 1),
                            Choice::Vote(CandidateId(d as u32)),
                        ) == st.bucket(d) by {
                            assert(st.bucket(d) == st0.bucket(d));
                            assert(top_filter(
                                orig.take(placed as int + 1),
                                Choice::Vote(CandidateId(d as u32)),
                            ) == top_filter(
                                orig.take(placed as int),
                                Choice::Vote(CandidateId(d as u32)),
                            ));
                        }
                        assert(top_filter(orig.take(placed as int + 1), Choice::Overvote)
                            == top_filter(orig.take(placed as int), Choice::Overvote).push(b));
                        assert(top_filter(orig.take(placed as int + 1), Choice::Undervote)
                            == top_filter(orig.take(placed as int), Choice::Undervote));
                        assert(st.candidate_ballots@ == st0.candidate_ballots@);
                        assert forall|d: int| 0 <= d < st.slots() implies (#[trigger] st.has_bucket(
                            d,
                        ) <==> top_filter(
                            orig.take(placed as int + 1),
                            Choice::Vote(CandidateId(d as u32)),
                        ).len() > 0) by {
                            assert(st.has_bucket(d) == st0.has_bucket(d));
                            assert(top_filter(
                                orig.take(placed as int + 1),
                                Choice::Vote(CandidateId(d as u32)),
                            ) == top_filter(
                                orig.take(placed as int),
                                Choice::Vote(CandidateId(d as u32)),
                            ));
                        }
                        assert forall|d: int| 0 <= d < st.slots() implies #[trigger] st.bucket_len(
                            d,
                        ) <= placed as int + 1 by {
                            assert(st.bucket_len(d) == st0.bucket_len(d));
                        }
                        assert forall|d: int| 0 <= d < st.slots() implies ballots_in_range(
                            #[trigger] st.bucket(d),
                            st.slots(),
                        ) by {
                            assert(st.bucket(d) == st0.bucket(d));
                            assert(ballots_in_range(st0.bucket(d), st0.slots()));
                        }
                    }
                },
                Choice::Vote(cid) => {
                    proof {
                        assert(match b.choices@[0] {
                            Choice::Vote(cc) => cc.0 < n_slots,
                            _ => true,
                        });
                    }
                    let idx = cid.0 as usize;
                    let taken = st.candidate_ballots[idx].take();
                    let ghost st_mid = st;
                    let mut bucket = match taken {
                        Some(bv) => bv,
                        None => Vec::new(),
                    };
                    proof {
                        assert(bucket@ =~= st0.bucket(idx as int));
                    }
                    bucket.push(b);
                    st.candidate_ballots[idx] = Some(bucket);
                    proof {
                        assert(st.candidate_ballots@ =~= st0.candidate_ballots@.update(
                            idx as int,
                            Some(bucket),
                        ));
                        assert(forall|d: int|
                            0 <= d < st.slots() && d != idx as int ==> #[trigger] st.bucket(d)
                                == st0.bucket(d) && st.has_bucket(d) == st0.has_bucket(d));
                        assert(st.bucket(idx as int) =~= st0.bucket(idx as int).push(b));
                        assert(orig.skip(placed as int + 1).len() == orig.len() - placed - 1);
                        assert(placed < orig.len());
                        assert(st0.bucket_len(idx as int) <= placed as int);
                        assert(st.bucket_len(idx as int) == st0.bucket_len(idx as int) + 1);
                        TabulatorState::lemma_cand_votes_prefix_update(
                            st0,
                            st,
                            idx as int,
                            st.slots(),
                        );
                        assert forall|d: int| 0 <= d < st.slots() implies #[trigger] top_filter(
                            orig.take(placed as int + 1),
                            Choice::Vote(CandidateId(d as u32)),
                        ) == st.bucket(d) by {
                            if d == idx as int {
                                assert(b.spec_top_vote() == Choice::Vote(CandidateId(d as u32)));
                                assert(top_filter(
                                    orig.take(placed as int + 1),
                                    Choice::Vote(CandidateId(d as u32)),
                                ) == top_filter(
                                    orig.take(placed as int),
                                    Choice::Vote(CandidateId(d as u32)),
                                ).push(b));
                            } else {
                                assert(st.bucket(d) == st0.bucket(d));
                                assert(Choice::Vote(CandidateId(d as u32))
                                    != Choice::Vote(CandidateId(idx as u32)));
                                assert(top_filter(
                                    orig.take(placed as int + 1),
                                    Choice::Vote(CandidateId(d as u32)),
                                ) == top_filter(
                                    orig.take(placed as int),
                                    Choice::Vote(CandidateId(d as u32)),
                                ));
                            }
                        }
                        assert(top_filter(orig.take(placed as int + 1), Choice::Undervote)
                            == top_filter(orig.take(placed as int), Choice::Undervote));
                        assert(top_filter(orig.take(placed as int + 1), Choice::Overvote)
                            == top_filter(orig.take(placed as int), Choice::Overvote));
                        assert forall|d: int| 0 <= d < st.slots() implies (#[trigger] st.has_bucket(
                            d,
                        ) <==> top_filter(
                            orig.take(placed as int + 1),
                            Choice::Vote(CandidateId(d as u32)),
                        ).len() > 0) by {
                            if d == idx as int {
                                assert(st.has_bucket(d));
                                assert(st.bucket(d).len() > 0);
                                assert(top_filter(
                                    orig.take(placed as int + 1),
                                    Choice::Vote(CandidateId(d as u32)),
                                ) == st.bucket(d));
                            } else {
                                assert(st.has_bucket(d) == st0.has_bucket(d));
                                assert(top_filter(
                                    orig.take(placed as int + 1),
                                    Choice::Vote(CandidateId(d as u32)),
                                ) == top_filter(
                                    orig.take(placed as int),
                                    Choice::Vote(CandidateId(d as u32)),
                                ));
                            }
                        }
                        assert forall|d: int| 0 <= d < st.slots() implies #[trigger] st.bucket_len(
                            d,
                        ) <= placed as int + 1 by {
                            if d != idx as int {
                                assert(st.bucket_len(d) == st0.bucket_len(d));
                            }
                        }
                        assert forall|d: int| 0 <= d < st.slots() implies ballots_in_range(
                            #[trigger] st.bucket(d),
                            st.slots(),
                        ) by {
                            if d == idx as int {
                                let nb = st.bucket(d);
                                assert forall|i: int|
                                    0 <= i < nb.len() implies choices_in_range(
                                    #[trigger] nb[i].choices@,
                                    st.slots(),
                                ) by {
                                    if i < nb.len() - 1 {
                                        assert(nb[i] == st0.bucket(d)[i]);
                                        assert(ballots_in_range(st0.bucket(d), st0.slots()));
                                    } else {
                                        assert(nb[i] == b);
                                    }
                                }
                            } else {
                                assert(st.bucket(d) == st0.bucket(d));
                                assert(ballots_in_range(st0.bucket(d), st0.slots()));
                            }
                        }
                    }
                },
            }
            placed = placed + 1;
        }
        proof {
            assert(orig.take(orig.len() as int) =~= orig);
            assert forall|c: int| #[trigger] st.has_bucket(c) implies st.bucket_len(c) >= 1 by {
                assert(0 <= c < st.slots());
                assert(top_filter(orig, Choice::Vote(CandidateId(c as u32))).len() > 0);
                assert(st.bucket(c) == top_filter(orig, Choice::Vote(CandidateId(c as u32))));
            }
        }
        st
    }

    /// Counts the ballots attributed to each candidate at this round, and the
    /// exhausted count under the round's accounting rule.
    pub fn allocations(&self, tabulation_options: &TabulationOptions, round_number: usize) -> (r:
        Allocations)
        requires
            self.wf(),
        ensures
            r.votes@.to_multiset() == self.cand_votes().to_multiset(),
            r.votes@.len() == self.cand_votes().len(),
            votes_sorted(r.votes@),
            weight_sum(r.votes@, vote_weight()) == self.cand_total(),
            r.exhausted as int == if tabulation_options.spec_nyc() && round_number == 0 {
                0int
            } else {
                self.undervote_ballots@.len() + self.overvote_ballots@.len() as int
            },
    {
        let mut votes: Vec<(CandidateId, u32)> = Vec::new();
        let mut c: usize = 0;
        while c < self.candidate_ballots.len()
            invariant
                self.wf(),
                c <= self.slots(),
                votes@ == self.cand_votes_prefix(c as int),
            decreases self.slots() - c,
        {
            let slot = &self.candidate_ballots[c];
            match slot {
                Some(bucket) => {
                    proof {
                        assert(self.bucket_len(c as int) <= u32::MAX);
                    }
                    let len_u32 = bucket.len() as u32;
                    votes.push((CandidateId(c as u32), len_u32));
                },
                None => {},
            }
            c = c + 1;
        }
        proof {
            self.lemma_cand_votes_nonneg(self.slots());
        }
        let exhausted: u32 = if tabulation_options.nyc() && round_number == 0 {
            0
        } else {
            self.undervote_ballots.len() as u32 + self.overvote_ballots.len() as u32
        };
        Allocations::new(votes, exhausted)
    }

    /// The serializable `TabulatorRound` view of this state.
    pub fn as_round(&self, tabulation_options: &TabulationOptions, round_number: usize) -> (r:
        TabulatorRound)
        requires
            self.wf(),
        ensures
            r.undervote as int == self.undervote_ballots@.len(),
            r.overvote as int == self.overvote_ballots@.len(),
            r.continuing_ballots as int == self.cand_total(),
            r.transfers@ == self.transfers@,
            r.allocations@.len() == self.cand_votes().len() + 1,
            r.allocations@[r.allocations@.len() - 1] == (TabulatorAllocation {
                allocatee: Allocatee::Exhausted,
                votes: if tabulation_options.spec_nyc() && round_number == 0 {
                    0u32
                } else {
                    (self.undervote_ballots@.len() + self.overvote_ballots@.len()) as u32
                },
            }),
            forall|i: int|
                0 <= i < r.allocations@.len() - 1 ==> (#[trigger] r.allocations@[i].allocatee)
                    is Candidate,
            votes_sorted(cand_lines(r.allocations@)),
            cand_lines(r.allocations@).to_multiset() == self.cand_votes().to_multiset(),
            forall|c: CandidateId|
                #[trigger] appears_in(r.allocations@, c) <==> self.has_bucket(c.0 as int),
            forall|c: CandidateId|
                appears_in(r.allocations@, c) ==> #[trigger] votes_for(r.allocations@, c)
                    == self.bucket_len(c.0 as int),
            forall|c: CandidateId|
                !appears_in(r.allocations@, c) ==> #[trigger] votes_for(r.allocations@, c) == 0,
            weight_sum(cand_lines(r.allocations@), vote_weight()) == r.continuing_ballots as int,
            cand_lines(r.allocations@) == self.sorted_votes(),
            forall|i: int|
                0 <= i < r.allocations@.len() - 1 ==> (#[trigger] r.allocations@[i]).votes >= 1,
    {
        let allocations = self.allocations(tabulation_options, round_number);
        let undervote = self.undervote_ballots.len() as u32;
        let overvote = self.overvote_ballots.len() as u32;
        proof {
            self.lemma_cand_votes_nonneg(self.slots());
        }
        let continuing_ballots = allocations.continuing();
        let ghost sv = allocations.votes@;
        let transfers = clone_transfers(&self.transfers);
        let allocs_vec = allocations.into_vec();
        proof {
            lemma_allocs_from_votes(allocs_vec@, sv, *self);
            assert(cand_lines(allocs_vec@) =~= sv);
            self.lemma_sorted_votes_is(sv);
            // Every candidate line reports a nonempty pile.
            assert forall|i: int|
                0 <= i < allocs_vec@.len() - 1 implies (#[trigger] allocs_vec@[i]).votes >= 1 by {
                assert(self.has_bucket(sv[i].0.0 as int));
                assert(sv[i].1 as int == self.bucket_len(sv[i].0.0 as int));
                assert(allocs_vec@[i].votes == sv[i].1);
            }
        }
        TabulatorRound {
            allocations: allocs_vec,
            undervote,
            overvote,
            continuing_ballots,
            transfers,
        }
    }
}

/// Weight of one per-destination counter.
pub open spec fn count_weight() -> spec_fn(u32) -> int {
    |x: u32| x as int
}

impl TabulatorState {
    /// The state's vote lines in reporting order: the unique reordering of
    /// `cand_votes` sorted by `vote_le`.
    pub open spec fn sorted_votes(self) -> Seq<(CandidateId, u32)> {
        choose|s: Seq<(CandidateId, u32)>|
            votes_sorted(s) && s.to_multiset() == self.cand_votes().to_multiset()
    }

    /// Any witness in reporting order with the right contents is the state's
    /// sorted vote-line sequence.
    pub proof fn lemma_sorted_votes_is(self, s: Seq<(CandidateId, u32)>)
        requires
            votes_sorted(s),
            s.to_multiset() == self.cand_votes().to_multiset(),
        ensures
            self.sorted_votes() == s,
    {
        let w = self.sorted_votes();
        assert(votes_sorted(w) && w.to_multiset() == self.cand_votes().to_multiset());
        Allocations::lemma_sorted_votes_unique(w, s);
    }

    /// The batch-elimination scan: walking the sorted lines while subtracting
    /// from the continuing total, it returns the index after the line whose
    /// count exceeds everything below it (never breaking on the leader), or
    /// the list's length when no such prefix exists.
    pub open spec fn spec_cut_from(sv: Seq<(CandidateId, u32)>, i: int, remaining: int) -> int
        decreases sv.len() - i,
    {
        if i < 0 || i >= sv.len() {
            sv.len() as int
        } else {
            let rem2 = remaining - sv[i].1;
            if sv[i].1 > rem2 && i > 0 {
                i + 1
            } else {
                Self::spec_cut_from(sv, i + 1, rem2)
            }
        }
    }

    /// Index of the first eliminated line: the batch cut, or — when the cut
    /// would eliminate no one — the last line alone (the deterministic
    /// tie-break).
    pub open spec fn spec_elim_start(sv: Seq<(CandidateId, u32)>) -> int {
        let cut = Self::spec_cut_from(sv, 0, weight_sum(sv, vote_weight()));
        if cut == sv.len() && sv.len() > 0 {
            sv.len() - 1
        } else {
            cut
        }
    }

    pub proof fn lemma_spec_cut_bounds(sv: Seq<(CandidateId, u32)>, i: int, remaining: int)
        requires
            0 <= i,
        ensures
            i <= Self::spec_cut_from(sv, i, remaining) || Self::spec_cut_from(sv, i, remaining)
                == sv.len(),
            Self::spec_cut_from(sv, i, remaining) <= sv.len(),
            0 <= Self::spec_cut_from(sv, i, remaining),
        decreases sv.len() - i,
    {
        if 0 <= i < sv.len() {
            Self::lemma_spec_cut_bounds(sv, i + 1, remaining - sv[i].1);
        }
    }

    pub proof fn lemma_elim_start_bounds(sv: Seq<(CandidateId, u32)>)
        ensures
            0 <= Self::spec_elim_start(sv) <= sv.len(),
            sv.len() > 0 ==> Self::spec_elim_start(sv) < sv.len(),
    {
        Self::lemma_spec_cut_bounds(sv, 0, weight_sum(sv, vote_weight()));
    }

    /// Entries of any reordering of the state's vote lines are existing piles
    /// with their sizes, and carry pairwise distinct candidates.
    pub proof fn lemma_votes_entries(self, sv: Seq<(CandidateId, u32)>)
        requires
            self.slots() <= u32::MAX,
            forall|c: int| 0 <= c < self.slots() ==> #[trigger] self.bucket_len(c) <= u32::MAX,
            sv.to_multiset() == self.cand_votes().to_multiset(),
        ensures
            forall|k: int|
                0 <= k < sv.len() ==> self.has_bucket((#[trigger] sv[k]).0.0 as int) && sv[k].1
                    as int == self.bucket_len(sv[k].0.0 as int),
            forall|i: int, j: int| 0 <= i < j < sv.len() ==> sv[i].0.0 != sv[j].0.0,
            forall|c: int|
                0 <= c < self.slots() && self.has_bucket(c) ==> exists|k: int|
                    0 <= k < sv.len() && (#[trigger] sv[k]).0.0 == c,
    {
        let ghost allocs = Seq::new(
            (sv.len() + 1) as nat,
            |i: int|
                if i < sv.len() {
                    TabulatorAllocation { allocatee: Allocatee::Candidate(sv[i].0), votes: sv[i].1 }
                } else {
                    TabulatorAllocation { allocatee: Allocatee::Exhausted, votes: 0 }
                },
        );
        lemma_allocs_from_votes(allocs, sv, self);
        assert forall|c: int|
            0 <= c < self.slots() && self.has_bucket(c) implies exists|k: int|
            0 <= k < sv.len() && (#[trigger] sv[k]).0.0 == c by {
            let cid = CandidateId(c as u32);
            assert(cid.0 as int == c);
            assert(appears_in(allocs, cid));
            let i = choose|i: int|
                0 <= i < allocs.len() && allocs[i].allocatee == Allocatee::Candidate(cid);
            assert(i < sv.len());
            assert(sv[i].0.0 == c);
        }
    }
}

impl TabulatorState {
    /// One elimination step: finds the largest suffix of trailing candidates
    /// whose combined votes cannot overtake the leaders (or, on a perfect
    /// tie, exactly the last sorted line), removes those candidates, walks
    /// each of their ballots to its next surviving preference, and records
    /// the resulting transfers.
    #[verifier::loop_isolation(false)]
    #[verifier::rlimit(100)]
    pub fn do_elimination(self, tabulation_options: &TabulationOptions, round_number: usize) -> (r:
        TabulatorState)
        requires
            self.wf(),
        ensures
            r.wf(),
            r.slots() == self.slots(),
            r.total_ballots() == self.total_ballots(),
            r.undervote_ballots@.len() >= self.undervote_ballots@.len(),
            r.overvote_ballots@.len() >= self.overvote_ballots@.len(),
            forall|c: int| self.is_eliminated(c) ==> r.is_eliminated(c),
            forall|c: int| r.is_eliminated(c) ==> self.is_eliminated(c) || self.has_bucket(c),
            forall|c: int|
                0 <= c < self.slots() && self.has_bucket(c) && !r.is_eliminated(c)
                    ==> r.has_bucket(c) && r.bucket_len(c) >= self.bucket_len(c),
            forall|c: int|
                0 <= c < self.slots() && self.has_bucket(c) && !r.has_bucket(c) ==> r.is_eliminated(
                    c,
                ),
            ({
                let sv = self.sorted_votes();
                let es = Self::spec_elim_start(sv);
                &&& forall|k: int|
                    es <= k < sv.len() ==> r.is_eliminated((#[trigger] sv[k]).0.0 as int)
                        && !r.has_bucket(sv[k].0.0 as int)
                &&& forall|k: int| 0 <= k < es ==> r.has_bucket((#[trigger] sv[k]).0.0 as int)
                &&& weight_sum(r.transfers@, transfer_weight()) == weight_sum(
                    sv.skip(es),
                    vote_weight(),
                )
                &&& forall|c: int|
                    0 <= c < self.slots() && !r.eliminated@[c] ==> #[trigger] r.bucket_len(c)
                        == self.bucket_len(c) + self.settled_into(
                        sv,
                        r.eliminated@,
                        es,
                        sv.len() as int,
                        Choice::Vote(CandidateId(c as u32)),
                    )
                &&& r.undervote_ballots@.len() == self.undervote_ballots@.len()
                    + self.settled_into(sv, r.eliminated@, es, sv.len() as int, Choice::Undervote)
                &&& r.overvote_ballots@.len() == self.overvote_ballots@.len() + self.settled_into(
                    sv,
                    r.eliminated@,
                    es,
                    sv.len() as int,
                    Choice::Overvote,
                )
                &&& r.transfers@.to_multiset() == self.spec_transfers_upto(
                    sv,
                    r.eliminated@,
                    es,
                    sv.len() as int,
                ).to_multiset()
                &&& forall|j: int|
                    0 <= j < r.transfers@.len() ==> from_in_suffix(
                        sv,
                        es,
                        (#[trigger] r.transfers@[j]).from,
                    )
                &&& forall|k: int|
                    es <= k < sv.len() ==> weight_sum(
                        transfers_for(
                            (#[trigger] sv[k]).0,
                            self.bucket(sv[k].0.0 as int),
                            r.eliminated@,
                            self.slots(),
                        ),
                        transfer_weight(),
                    ) == self.bucket_len(sv[k].0.0 as int)
            }),
            transfers_sorted(r, r.transfers@),
    {
        let ghost self0 = self;
        let alloc = self.allocations(tabulation_options, round_number);
        let ghost sv = alloc.votes@;
        proof {
            self0.lemma_sorted_votes_is(sv);
            self0.lemma_votes_entries(sv);
            self0.lemma_cand_votes_nonneg(self0.slots());
            assert(forall|k: int|
                0 <= k < sv.len() ==> vote_weight()(#[trigger] sv[k]) >= 0);
        }
        let es: usize = find_elim_start(&alloc);
        proof {
            assert(es as int == Self::spec_elim_start(sv));
            assert(sv.len() > 0 ==> (es as int) < sv.len());
        }
        // Mark the suffix eliminated.
        let mut st = self;
        proof {
            assert forall|k: int|
                es <= k < sv.len() implies (#[trigger] sv[k]).0.0 < st.eliminated@.len() by {
                assert(self0.has_bucket(sv[k].0.0 as int));
            }
        }
        mark_suffix_eliminated(&mut st, &alloc.votes, es);
        let ghost elim_flags = st.eliminated@;
        proof {
            // Lines below the cut keep their candidate un-flagged.
            assert forall|j: int| 0 <= j < es implies !elim_flags[(#[trigger] sv[j]).0.0 as int] by {
                assert(self0.has_bucket(sv[j].0.0 as int));
                assert(!self0.eliminated@[sv[j].0.0 as int]) by {
                    if self0.eliminated@[sv[j].0.0 as int] {
                        assert(self0.is_eliminated(sv[j].0.0 as int));
                    }
                }
                assert(forall|kk: int|
                    es <= kk < sv.len() ==> (#[trigger] sv[kk]).0.0 != sv[j].0.0);
            }
        }
        // Drain each eliminated pile, settling every ballot onto its next
        // surviving preference.
        let mut new_transfers: Vec<Transfer> = Vec::new();
        let mut k2: usize = es;
        proof {
            assert(sv.subrange(es as int, es as int) =~= Seq::<(CandidateId, u32)>::empty());
            assert(forall|ch: Choice|
                #[trigger] self0.settled_into(sv, elim_flags, es as int, es as int, ch) == 0);
            assert(self0.spec_transfers_upto(sv, elim_flags, es as int, es as int)
                =~= Seq::<Transfer>::empty());
            assert(st.candidate_ballots@ == self0.candidate_ballots@);
            assert forall|c: int| 0 <= c < st.slots() implies #[trigger] st.has_bucket(c)
                == self0.has_bucket(c) && st.bucket(c) == self0.bucket(c) && st.bucket_len(c)
                == self0.bucket_len(c) by {}
            TabulatorState::lemma_cand_votes_prefix_congruence(self0, st, st.slots());
            assert(st.total_ballots() == self0.total_ballots());
            assert forall|c: int|
                0 <= c < st.slots() && elim_flags[c] && #[trigger] st.has_bucket(c) implies exists|
                j: int,
            | es as int <= j < sv.len() && (#[trigger] sv[j]).0.0 == c by {
                if self0.eliminated@[c] {
                    assert(self0.is_eliminated(c));
                    assert(!self0.has_bucket(c));
                }
            }
        }
        while k2 < alloc.votes.len()
            invariant
                es <= k2 <= sv.len(),
                st.slots() == self0.slots(),
                st.eliminated@ == elim_flags,
                st.transfers@ == self0.transfers@,
                forall|j: int| es <= j < k2 ==> !st.has_bucket((#[trigger] sv[j]).0.0 as int),
                forall|j: int|
                    k2 <= j < sv.len() ==> st.has_bucket((#[trigger] sv[j]).0.0 as int)
                        && st.bucket(sv[j].0.0 as int) == self0.bucket(sv[j].0.0 as int),
                forall|c: int|
                    0 <= c < st.slots() && !elim_flags[c] ==> (self0.has_bucket(c)
                        ==> #[trigger] st.has_bucket(c)) && st.bucket_len(c) >= self0.bucket_len(c),
                forall|c: int|
                    0 <= c < st.slots() && elim_flags[c] && #[trigger] st.has_bucket(c)
                        ==> exists|j: int| k2 <= j < sv.len() && (#[trigger] sv[j]).0.0 == c,
                st.undervote_ballots@.len() >= self0.undervote_ballots@.len(),
                st.overvote_ballots@.len() >= self0.overvote_ballots@.len(),
                st.total_ballots() == self0.total_ballots(),
                forall|c: int| 0 <= c < st.slots() ==> #[trigger] st.bucket_len(c) <= u32::MAX,
                forall|c: int|
                    0 <= c < st.slots() ==> ballots_in_range(#[trigger] st.bucket(c), st.slots()),
                ballots_in_range(st.undervote_ballots@, st.slots()),
                ballots_in_range(st.overvote_ballots@, st.slots()),
                forall|c: int| #[trigger] st.has_bucket(c) ==> st.bucket_len(c) >= 1,
                weight_sum(new_transfers@, transfer_weight()) == weight_sum(
                    sv.subrange(es as int, k2 as int),
                    vote_weight(),
                ),
                forall|dd: int|
                    0 <= dd < st.slots() && !elim_flags[dd] ==> #[trigger] st.bucket_len(dd)
                        == self0.bucket_len(dd) + self0.settled_into(
                        sv,
                        elim_flags,
                        es as int,
                        k2 as int,
                        Choice::Vote(CandidateId(dd as u32)),
                    ),
                st.undervote_ballots@.len() == self0.undervote_ballots@.len()
                    + self0.settled_into(sv, elim_flags, es as int, k2 as int, Choice::Undervote),
                st.overvote_ballots@.len() == self0.overvote_ballots@.len() + self0.settled_into(
                    sv,
                    elim_flags,
                    es as int,
                    k2 as int,
                    Choice::Overvote,
                ),
                new_transfers@ == self0.spec_transfers_upto(sv, elim_flags, es as int, k2 as int),
                forall|k: int|
                    es <= k < k2 ==> weight_sum(
                        transfers_for(
                            (#[trigger] sv[k]).0,
                            self0.bucket(sv[k].0.0 as int),
                            elim_flags,
                            self0.slots(),
                        ),
                        transfer_weight(),
                    ) == self0.bucket_len(sv[k].0.0 as int),
            decreases sv.len() - k2,
        {
            let cid = alloc.votes[k2].0;
            proof {
                assert(st.has_bucket(cid.0 as int));
                assert(elim_flags[cid.0 as int]) by {
                    assert((#[trigger] sv[k2 as int]).0.0 == cid.0);
                }
                assert(st.bucket(cid.0 as int) == self0.bucket(cid.0 as int));
            }
            let ghost tprev = new_transfers@;
            let ghost st_pre = st;
            drain_candidate(&mut st, cid, &mut new_transfers);
            proof {
                assert forall|j: int| es <= j < k2 + 1 implies !st.has_bucket(
                    (#[trigger] sv[j]).0.0 as int,
                ) by {
                    if j < k2 as int {
                        assert(sv[j].0.0 != sv[k2 as int].0.0);
                        assert(elim_flags[sv[j].0.0 as int]);
                        assert(st.bucket(sv[j].0.0 as int) == st_pre.bucket(sv[j].0.0 as int));
                        assert(st.has_bucket(sv[j].0.0 as int) == st_pre.has_bucket(
                            sv[j].0.0 as int,
                        ));
                    }
                }
                assert forall|j: int|
                    k2 + 1 <= j < sv.len() implies st.has_bucket((#[trigger] sv[j]).0.0 as int)
                    && st.bucket(sv[j].0.0 as int) == self0.bucket(sv[j].0.0 as int) by {
                    assert(sv[j].0.0 != sv[k2 as int].0.0);
                    assert(elim_flags[sv[j].0.0 as int]);
                    assert(st.bucket(sv[j].0.0 as int) == st_pre.bucket(sv[j].0.0 as int));
                    assert(st.has_bucket(sv[j].0.0 as int) == st_pre.has_bucket(sv[j].0.0 as int));
                }
                assert forall|c: int|
                    0 <= c < st.slots() && !elim_flags[c] implies (self0.has_bucket(c)
                        ==> #[trigger] st.has_bucket(c)) && st.bucket_len(c) >= self0.bucket_len(
                    c,
                ) by {
                    assert((st_pre.has_bucket(c) ==> st.has_bucket(c)) && st.bucket_len(c)
                        >= st_pre.bucket_len(c));
                }
                assert forall|c: int|
                    0 <= c < st.slots() && elim_flags[c] && #[trigger] st.has_bucket(c) implies
                    exists|j: int| k2 + 1 <= j < sv.len() && (#[trigger] sv[j]).0.0 == c by {
                    assert(c != cid.0 as int);
                    assert(st.bucket(c) == st_pre.bucket(c));
                    assert(st.has_bucket(c) == st_pre.has_bucket(c));
                    let j = choose|j: int| k2 <= j < sv.len() && (#[trigger] sv[j]).0.0 == c;
                    assert(j != k2 as int);
                    assert(k2 + 1 <= j < sv.len() && sv[j].0.0 == c);
                }
                assert(st_pre.bucket_len(cid.0 as int) == sv[k2 as int].1 as int);
                assert(sv.subrange(es as int, k2 as int + 1) =~= sv.subrange(
                    es as int,
                    k2 as int,
                ).push(sv[k2 as int]));
                lemma_weight_sum_push(
                    sv.subrange(es as int, k2 as int),
                    vote_weight(),
                    sv[k2 as int],
                );
                // The destination accounting advances by this pile's counts.
                assert(st_pre.bucket(cid.0 as int) == self0.bucket(cid.0 as int));
                assert(st_pre.eliminated@ == elim_flags);
                assert(st_pre.slots() == self0.slots());
                assert forall|dd: int|
                    0 <= dd < st.slots() && !elim_flags[dd] implies #[trigger] st.bucket_len(dd)
                    == self0.bucket_len(dd) + self0.settled_into(
                    sv,
                    elim_flags,
                    es as int,
                    k2 as int + 1,
                    Choice::Vote(CandidateId(dd as u32)),
                ) by {
                    assert(st.bucket_len(dd) == st_pre.bucket_len(dd) + settled_count(
                        st_pre.bucket(cid.0 as int),
                        st_pre.eliminated@,
                        Choice::Vote(CandidateId(dd as u32)),
                    ));
                    assert(self0.settled_into(
                        sv,
                        elim_flags,
                        es as int,
                        k2 as int + 1,
                        Choice::Vote(CandidateId(dd as u32)),
                    ) == self0.settled_into(
                        sv,
                        elim_flags,
                        es as int,
                        k2 as int,
                        Choice::Vote(CandidateId(dd as u32)),
                    ) + settled_count(
                        self0.bucket(sv[k2 as int].0.0 as int),
                        elim_flags,
                        Choice::Vote(CandidateId(dd as u32)),
                    ));
                }
                assert(self0.settled_into(sv, elim_flags, es as int, k2 as int + 1,
                    Choice::Undervote) == self0.settled_into(sv, elim_flags, es as int, k2 as int,
                    Choice::Undervote) + settled_count(
                    self0.bucket(sv[k2 as int].0.0 as int),
                    elim_flags,
                    Choice::Undervote,
                ));
                assert(self0.settled_into(sv, elim_flags, es as int, k2 as int + 1,
                    Choice::Overvote) == self0.settled_into(sv, elim_flags, es as int, k2 as int,
                    Choice::Overvote) + settled_count(
                    self0.bucket(sv[k2 as int].0.0 as int),
                    elim_flags,
                    Choice::Overvote,
                ));
                assert(new_transfers@ == tprev + transfers_for(
                    cid,
                    st_pre.bucket(cid.0 as int),
                    st_pre.eliminated@,
                    st_pre.slots(),
                ));
                assert(self0.spec_transfers_upto(sv, elim_flags, es as int, k2 as int + 1)
                    == self0.spec_transfers_upto(sv, elim_flags, es as int, k2 as int)
                    + transfers_for(
                    sv[k2 as int].0,
                    self0.bucket(sv[k2 as int].0.0 as int),
                    elim_flags,
                    self0.slots(),
                ));
                // This pile's emitted records sum to exactly its votes.
                assert(weight_sum(
                    transfers_for(
                        sv[k2 as int].0,
                        self0.bucket(sv[k2 as int].0.0 as int),
                        elim_flags,
                        self0.slots(),
                    ),
                    transfer_weight(),
                ) == self0.bucket_len(sv[k2 as int].0.0 as int)) by {
                    let tf = transfers_for(
                        sv[k2 as int].0,
                        self0.bucket(sv[k2 as int].0.0 as int),
                        elim_flags,
                        self0.slots(),
                    );
                    assert(new_transfers@ == tprev + tf);
                    lemma_weight_sum_split(new_transfers@, transfer_weight(), tprev.len() as int);
                    assert(new_transfers@.take(tprev.len() as int) =~= tprev);
                    assert(new_transfers@.skip(tprev.len() as int) =~= tf);
                    assert(weight_sum(new_transfers@, transfer_weight()) == weight_sum(
                        tprev,
                        transfer_weight(),
                    ) + st_pre.bucket_len(cid.0 as int));
                    assert(st_pre.bucket_len(cid.0 as int) == self0.bucket_len(
                        sv[k2 as int].0.0 as int,
                    ));
                }
            }
            k2 = k2 + 1;
        }
        proof {
            assert(sv.subrange(es as int, sv.len() as int) =~= sv.skip(es as int));
        }
        // Order the transfer records for reporting and install them.
        let sorted_transfers = sort_transfers(new_transfers, &st);
        let ghost st_before = st;
        st.transfers = sorted_transfers;
        proof {
            assert(forall|c: int| #[trigger] st.bucket(c) == st_before.bucket(c));
            assert(forall|c: int| #[trigger] st.bucket_len(c) == st_before.bucket_len(c));
            assert(forall|c: int| #[trigger] st.has_bucket(c) == st_before.has_bucket(c));
            assert(forall|t: Transfer| #[trigger] transfer_key(st, t) == transfer_key(
                st_before,
                t,
            ));
            TabulatorState::lemma_cand_votes_prefix_congruence(st_before, st, st.slots());
            assert(st.total_ballots() == self0.total_ballots());
            // Well-formedness: every flagged candidate's pile is gone.
            assert forall|c: int| st.is_eliminated(c) implies !st.has_bucket(c) by {
                if st_before.has_bucket(c) {
                    let j = choose|j: int| k2 <= j < sv.len() && (#[trigger] sv[j]).0.0 == c;
                    assert(false);
                }
            }
            assert(st.eliminated@.len() == st.candidate_ballots@.len());
            assert(st.slots() <= u32::MAX);
            assert(forall|c: int| 0 <= c < st.slots() ==> #[trigger] st.bucket_len(c) <= u32::MAX);
            assert(st.total_ballots() <= u32::MAX);
            assert(forall|c: int|
                0 <= c < st.slots() ==> ballots_in_range(#[trigger] st.bucket(c), st.slots()));
            assert(ballots_in_range(st.undervote_ballots@, st.slots()));
            assert(ballots_in_range(st.overvote_ballots@, st.slots()));
            assert forall|c: int| #[trigger] st.has_bucket(c) implies st.bucket_len(c) >= 1 by {
                assert(st.has_bucket(c) == st_before.has_bucket(c));
                assert(st.bucket_len(c) == st_before.bucket_len(c));
            }
            assert(st.wf());
            assert forall|c: int|
                0 <= c < self0.slots() && self0.has_bucket(c) && !st.is_eliminated(c) implies
                st.has_bucket(c) && st.bucket_len(c) >= self0.bucket_len(c) by {
                assert(!elim_flags[c]);
                assert(st_before.has_bucket(c) && st_before.bucket_len(c) >= self0.bucket_len(c));
            }
            assert forall|c: int| self0.is_eliminated(c) implies st.is_eliminated(c) by {
                assert(self0.eliminated@[c]);
            }
            // The exact destination and transfer accounting survives the sort.
            assert(st.eliminated@ == elim_flags);
            assert(st.transfers@.to_multiset() == self0.spec_transfers_upto(
                sv,
                elim_flags,
                es as int,
                sv.len() as int,
            ).to_multiset());
            lemma_transfers_upto_from(self0, sv, elim_flags, es as int, sv.len() as int);
            let upto = self0.spec_transfers_upto(sv, elim_flags, es as int, sv.len() as int);
            st.transfers@.to_multiset_ensures();
            upto.to_multiset_ensures();
            assert forall|j: int| 0 <= j < st.transfers@.len() implies from_in_suffix(
                sv,
                es as int,
                (#[trigger] st.transfers@[j]).from,
            ) by {
                let t = st.transfers@[j];
                assert(st.transfers@.contains(t));
                assert(st.transfers@.to_multiset().count(t) > 0);
                assert(upto.to_multiset().count(t) > 0);
                assert(upto.contains(t));
                let jj = choose|jj: int| 0 <= jj < upto.len() && upto[jj] == t;
                let q = choose|q: int| (es as int) <= q < sv.len() && upto[jj].from == sv[q].0;
                assert((es as int) <= q < sv.len() && sv[q].0 == t.from);
            }
        }
        st
    }
}

/// Scans the sorted vote lines for the elimination cut and returns the index
/// of the first line to eliminate.
#[verifier::loop_isolation(false)]
fn find_elim_start(alloc: &Allocations) -> (es: usize)
    requires
        weight_sum(alloc.votes@, vote_weight()) <= u32::MAX,
    ensures
        es as int == TabulatorState::spec_elim_start(alloc.votes@),
        es <= alloc.votes@.len(),
        alloc.votes@.len() > 0 ==> (es as int) < alloc.votes@.len(),
{
    let ghost sv = alloc.votes@;
    proof {
        assert(forall|k: int| 0 <= k < sv.len() ==> vote_weight()(#[trigger] sv[k]) >= 0);
    }
    let total: u32 = alloc.continuing();
    let mut remaining: u32 = total;
    let mut cut: usize = alloc.votes.len();
    let mut i: usize = 0;
    let mut found: bool = false;
    let ghost cut_spec = TabulatorState::spec_cut_from(sv, 0, weight_sum(sv, vote_weight()));
    proof {
        assert(sv.skip(0) =~= sv);
    }
    while i < alloc.votes.len() && !found
        invariant
            i <= sv.len(),
            !found ==> remaining as int == weight_sum(sv.skip(i as int), vote_weight()),
            !found ==> TabulatorState::spec_cut_from(sv, i as int, remaining as int) == cut_spec,
            !found ==> cut == sv.len(),
            found ==> cut as int == cut_spec && 2 <= cut <= sv.len(),
        decreases sv.len() - i + (if found {
            0int
        } else {
            1int
        }),
    {
        let ghost rem_pre = remaining as int;
        let v = alloc.votes[i].1;
        proof {
            lemma_weight_sum_suffix_step(sv, vote_weight(), i as int);
            assert(forall|k: int|
                0 <= k < sv.skip(i as int + 1).len() ==> vote_weight()(
                    #[trigger] sv.skip(i as int + 1)[k],
                ) >= 0);
            lemma_weight_sum_nonneg(sv.skip(i as int + 1), vote_weight());
        }
        remaining = remaining - v;
        proof {
            assert(TabulatorState::spec_cut_from(sv, i as int, rem_pre) == (if sv[i as int].1
                > rem_pre - sv[i as int].1 && i as int > 0 {
                i as int + 1
            } else {
                TabulatorState::spec_cut_from(sv, i as int + 1, rem_pre - sv[i as int].1)
            }));
        }
        if v > remaining && i > 0 {
            cut = i + 1;
            found = true;
        } else {
            i = i + 1;
        }
    }
    proof {
        if !found {
            assert(i == sv.len());
            assert(TabulatorState::spec_cut_from(sv, i as int, remaining as int) == sv.len());
        }
        assert(cut as int == cut_spec);
        TabulatorState::lemma_spec_cut_bounds(sv, 0, weight_sum(sv, vote_weight()));
    }
    if cut == alloc.votes.len() && alloc.votes.len() > 0 {
        alloc.votes.len() - 1
    } else {
        cut
    }
}

/// Flags every candidate on the eliminated suffix of the sorted vote lines.
#[verifier::loop_isolation(false)]
fn mark_suffix_eliminated(st: &mut TabulatorState, votes: &Vec<(CandidateId, u32)>, es: usize)
    requires
        es <= votes@.len(),
        forall|k: int|
            es <= k < votes@.len() ==> ((#[trigger] votes@[k]).0.0 as int) < old(
                st,
            ).eliminated@.len(),
    ensures
        final(st).candidate_ballots@ == old(st).candidate_ballots@,
        final(st).undervote_ballots@ == old(st).undervote_ballots@,
        final(st).overvote_ballots@ == old(st).overvote_ballots@,
        final(st).transfers@ == old(st).transfers@,
        final(st).eliminated@.len() == old(st).eliminated@.len(),
        forall|c: int|
            0 <= c < final(st).eliminated@.len() ==> (#[trigger] final(st).eliminated@[c]
                <==> (old(st).eliminated@[c] || exists|kk: int|
                es <= kk < votes@.len() && (#[trigger] votes@[kk]).0.0 == c)),
{
    let ghost st0 = *st;
    let ghost sv = votes@;
    let mut k: usize = es;
    while k < votes.len()
        invariant
            es <= k <= sv.len(),
            st.candidate_ballots@ == st0.candidate_ballots@,
            st.undervote_ballots@ == st0.undervote_ballots@,
            st.overvote_ballots@ == st0.overvote_ballots@,
            st.transfers@ == st0.transfers@,
            st.eliminated@.len() == st0.eliminated@.len(),
            forall|c: int|
                0 <= c < st.eliminated@.len() ==> (#[trigger] st.eliminated@[c]
                    <==> (st0.eliminated@[c] || exists|kk: int|
                    es <= kk < k && (#[trigger] sv[kk]).0.0 == c)),
        decreases sv.len() - k,
    {
        let cid = votes[k].0;
        let idx = cid.0 as usize;
        let ghost eprev = st.eliminated@;
        st.eliminated[idx] = true;
        proof {
            assert(st.eliminated@ == eprev.update(idx as int, true));
            assert forall|c: int| 0 <= c < st.eliminated@.len() implies (st.eliminated@[c]
                <==> (st0.eliminated@[c] || exists|kk: int|
                es <= kk < k + 1 && (#[trigger] sv[kk]).0.0 == c)) by {
                if c == idx as int {
                    assert(sv[k as int].0.0 == c);
                    assert((es as int) <= (k as int) && (k as int) < k + 1);
                } else {
                    assert(st.eliminated@[c] == eprev[c]);
                    assert(forall|kk: int|
                        es <= kk < k + 1 && (#[trigger] sv[kk]).0.0 == c ==> kk < k);
                }
            }
        }
        k = k + 1;
    }
}

/// Empties the pile of one eliminated candidate: every ballot is walked to
/// its next surviving preference and re-piled, and one transfer record per
/// destination (exhausted pile last) is appended to `transfers_out`.
#[verifier::loop_isolation(false)]
#[verifier::rlimit(100)]
fn drain_candidate(st: &mut TabulatorState, cid: CandidateId, transfers_out: &mut Vec<Transfer>)
    requires
        old(st).slots() <= u32::MAX,
        old(st).eliminated@.len() == old(st).slots(),
        cid.0 < old(st).slots(),
        old(st).has_bucket(cid.0 as int),
        old(st).eliminated@[cid.0 as int],
        old(st).total_ballots() <= u32::MAX,
        forall|c: int| 0 <= c < old(st).slots() ==> #[trigger] old(st).bucket_len(c) <= u32::MAX,
        forall|c: int|
            0 <= c < old(st).slots() ==> ballots_in_range(
                #[trigger] old(st).bucket(c),
                old(st).slots(),
            ),
        ballots_in_range(old(st).undervote_ballots@, old(st).slots()),
        ballots_in_range(old(st).overvote_ballots@, old(st).slots()),
        forall|c: int| #[trigger] old(st).has_bucket(c) ==> old(st).bucket_len(c) >= 1,
    ensures
        final(st).slots() == old(st).slots(),
        final(st).eliminated@ == old(st).eliminated@,
        final(st).transfers@ == old(st).transfers@,
        !final(st).has_bucket(cid.0 as int),
        forall|c: int|
            0 <= c < old(st).slots() && c != cid.0 as int && old(st).eliminated@[c]
                ==> #[trigger] final(st).bucket(c) == old(st).bucket(c) && final(st).has_bucket(c)
                == old(st).has_bucket(c),
        forall|c: int|
            0 <= c < old(st).slots() && !old(st).eliminated@[c] ==> (old(st).has_bucket(c)
                ==> #[trigger] final(st).has_bucket(c)) && final(st).bucket_len(c) >= old(
                st,
            ).bucket_len(c),
        final(st).undervote_ballots@.len() >= old(st).undervote_ballots@.len(),
        final(st).overvote_ballots@.len() >= old(st).overvote_ballots@.len(),
        final(st).total_ballots() == old(st).total_ballots(),
        forall|c: int|
            0 <= c < final(st).slots() ==> #[trigger] final(st).bucket_len(c) <= u32::MAX,
        forall|c: int|
            0 <= c < final(st).slots() ==> ballots_in_range(
                #[trigger] final(st).bucket(c),
                final(st).slots(),
            ),
        ballots_in_range(final(st).undervote_ballots@, final(st).slots()),
        ballots_in_range(final(st).overvote_ballots@, final(st).slots()),
        forall|c: int| #[trigger] final(st).has_bucket(c) ==> final(st).bucket_len(c) >= 1,
        weight_sum(final(transfers_out)@, transfer_weight()) == weight_sum(
            old(transfers_out)@,
            transfer_weight(),
        ) + old(st).bucket_len(cid.0 as int),
        forall|c: int|
            0 <= c < old(st).slots() && !old(st).eliminated@[c]
                ==> #[trigger] final(st).bucket_len(c) == old(st).bucket_len(c) + settled_count(
                old(st).bucket(cid.0 as int),
                old(st).eliminated@,
                Choice::Vote(CandidateId(c as u32)),
            ),
        final(st).undervote_ballots@.len() == old(st).undervote_ballots@.len() + settled_count(
            old(st).bucket(cid.0 as int),
            old(st).eliminated@,
            Choice::Undervote,
        ),
        final(st).overvote_ballots@.len() == old(st).overvote_ballots@.len() + settled_count(
            old(st).bucket(cid.0 as int),
            old(st).eliminated@,
            Choice::Overvote,
        ),
        final(transfers_out)@ == old(transfers_out)@ + transfers_for(
            cid,
            old(st).bucket(cid.0 as int),
            old(st).eliminated@,
            old(st).slots(),
        ),
{
    let ghost st0 = *st;
    let ghost flags = old(st).eliminated@;
    let idx = cid.0 as usize;
    let taken = st.candidate_ballots[idx].take();
    let mut moving = match taken {
        Some(bv) => bv,
        None => Vec::new(),
    };
    proof {
        assert(moving@ == st0.bucket(idx as int));
        assert(st.candidate_ballots@ =~= st0.candidate_ballots@.update(idx as int, None));
        assert(forall|d: int|
            0 <= d < st.slots() && d != idx as int ==> #[trigger] st.bucket(d) == st0.bucket(d)
                && st.has_bucket(d) == st0.has_bucket(d));
        assert(!st.has_bucket(idx as int));
        TabulatorState::lemma_cand_votes_prefix_update(st0, *st, idx as int, st.slots());
    }
    let ghost bucket_orig_len = moving@.len() as int;
    let ghost bucket0 = moving@;
    let ghost base = *st;
    proof {
        assert forall|c: int| 0 <= c < st.slots() implies #[trigger] st.bucket_len(c)
            <= u32::MAX by {
            if c != idx as int {
                assert(st.bucket(c) == st0.bucket(c));
                assert(st0.bucket_len(c) <= u32::MAX);
            } else {
                assert(st.bucket_len(c) == 0);
            }
        }
        assert forall|c: int| 0 <= c < st.slots() implies ballots_in_range(
            #[trigger] st.bucket(c),
            st.slots(),
        ) by {
            if c != idx as int {
                assert(st.bucket(c) == st0.bucket(c));
                assert(ballots_in_range(st0.bucket(c), st0.slots()));
            }
        }
        assert(st.total_ballots() + moving@.len() == st0.total_ballots());
        assert(ballots_in_range(st0.bucket(idx as int), st0.slots()));
        assert forall|c: int| #[trigger] st.has_bucket(c) implies st.bucket_len(c) >= 1 by {
            assert(c != idx as int);
            assert(st.bucket(c) == st0.bucket(c));
            assert(st0.has_bucket(c));
        }
    }
    // Per-destination transfer counters for this eliminated candidate.
    let mut dcount: Vec<u32> = Vec::new();
    let mut z: usize = 0;
    while z < st.candidate_ballots.len()
        invariant
            z <= st.slots(),
            dcount@.len() == z,
            forall|d: int| 0 <= d < z ==> #[trigger] dcount@[d] == 0,
            weight_sum(dcount@, count_weight()) == 0,
        decreases st.slots() - z,
    {
        proof {
            lemma_weight_sum_push(dcount@, count_weight(), 0u32);
        }
        dcount.push(0);
        z = z + 1;
    }
    let mut exh: u32 = 0;
    let ghost mut u_cnt: int = 0;
    let ghost mut o_cnt: int = 0;
    proof {
        assert(bucket0.skip(bucket0.len() as int) =~= Seq::<NormalizedBallot>::empty());
        assert(moving@ =~= bucket0.take(moving@.len() as int));
    }
    while moving.len() > 0
        invariant
            st.slots() == st0.slots(),
            st.eliminated@ == flags,
            st.transfers@ == st0.transfers@,
            dcount@.len() == st.slots(),
            ballots_in_range(moving@, st.slots()),
            forall|d: int|
                0 <= d < st.slots() ==> #[trigger] st.bucket_len(d) == base.bucket_len(d)
                    + dcount@[d],
            forall|d: int|
                0 <= d < st.slots() && !base.has_bucket(d) && dcount@[d] == 0
                    ==> !#[trigger] st.has_bucket(d),
            forall|d: int|
                0 <= d < st.slots() && (base.has_bucket(d) || dcount@[d] > 0)
                    ==> #[trigger] st.has_bucket(d),
            forall|d: int| 0 <= d < st.slots() && #[trigger] dcount@[d] > 0 ==> !flags[d],
            forall|d: int|
                0 <= d < st.slots() && dcount@[d] == 0 ==> #[trigger] st.bucket(d) == base.bucket(
                    d,
                ),
            st.undervote_ballots@.len() + st.overvote_ballots@.len()
                == base.undervote_ballots@.len() + base.overvote_ballots@.len() + exh,
            st.undervote_ballots@.len() >= base.undervote_ballots@.len(),
            st.overvote_ballots@.len() >= base.overvote_ballots@.len(),
            weight_sum(dcount@, count_weight()) + exh == bucket_orig_len - moving@.len(),
            st.total_ballots() + moving@.len() == st0.total_ballots(),
            moving@.len() <= bucket0.len(),
            moving@ == bucket0.take(moving@.len() as int),
            forall|dd: int|
                0 <= dd < st.slots() ==> #[trigger] dcount@[dd] as int == settled_count(
                    bucket0.skip(moving@.len() as int),
                    flags,
                    Choice::Vote(CandidateId(dd as u32)),
                ),
            u_cnt == settled_count(
                bucket0.skip(moving@.len() as int),
                flags,
                Choice::Undervote,
            ),
            o_cnt == settled_count(bucket0.skip(moving@.len() as int), flags, Choice::Overvote),
            exh as int == u_cnt + o_cnt,
            st.undervote_ballots@.len() == base.undervote_ballots@.len() + u_cnt,
            st.overvote_ballots@.len() == base.overvote_ballots@.len() + o_cnt,
            forall|c: int| 0 <= c < st.slots() ==> #[trigger] st.bucket_len(c) <= u32::MAX,
            forall|c: int|
                0 <= c < st.slots() ==> ballots_in_range(#[trigger] st.bucket(c), st.slots()),
            ballots_in_range(st.undervote_ballots@, st.slots()),
            ballots_in_range(st.overvote_ballots@, st.slots()),
            forall|c: int| #[trigger] st.has_bucket(c) ==> st.bucket_len(c) >= 1,
        decreases moving@.len(),
    {
        let ghost moving_pre = moving@;
        let bopt = moving.pop();
        let b = match bopt {
            Some(x) => x,
            None => {
                proof {
                    assert(false);
                }
                NormalizedBallot { id: String::new(), choices: Vec::new() }
            },
        };
        proof {
            assert(b == moving_pre.last());
            assert(moving@ =~= moving_pre.drop_last());
            assert(choices_in_range(b.choices@, st.slots()));
            assert(st.slots() == st.eliminated@.len());
            let j = moving_pre.len() as int;
            assert(moving_pre == bucket0.take(j));
            assert(1 <= j <= bucket0.len());
            assert(moving_pre[j - 1] == bucket0.take(j)[j - 1]);
            assert(bucket0.take(j)[j - 1] == bucket0[j - 1]);
            assert(b == bucket0[j - 1]);
            assert(moving@ =~= bucket0.take(j - 1));
            assert(bucket0.skip(j - 1).first() == bucket0[j - 1]);
            assert(bucket0.skip(j - 1).drop_first() =~= bucket0.skip(j));
        }
        let (dest, b2) = settle_ballot(b, &st.eliminated);
        let ghost stm = *st;
        proof {
            assert(forall|q: int|
                0 <= q < dcount@.len() ==> count_weight()(#[trigger] dcount@[q]) >= 0);
            lemma_weight_sum_nonneg(dcount@, count_weight());
            assert(bucket_orig_len <= u32::MAX);
        }
        match dest {
            Choice::Undervote => {
                st.undervote_ballots.push(b2);
                exh = exh + 1;
                proof {
                    TabulatorState::lemma_cand_votes_prefix_congruence(stm, *st, st.slots());
                    assert(st.candidate_ballots@ == stm.candidate_ballots@);
                    assert(forall|dd: int| #[trigger] st.bucket(dd) == stm.bucket(dd));
                    assert(forall|dd: int| #[trigger] st.bucket_len(dd) == stm.bucket_len(dd));
                    assert(forall|dd: int| #[trigger] st.has_bucket(dd) == stm.has_bucket(dd));
                    assert(st.total_ballots() == stm.total_ballots() + 1);
                    u_cnt = u_cnt + 1;
                    let j = moving_pre.len() as int;
                    assert(settle_choice(bucket0[j - 1].choices@, flags) == Choice::Undervote);
                    assert forall|dd: int| 0 <= dd < st.slots() implies #[trigger] dcount@[dd]
                        as int == settled_count(
                        bucket0.skip(j - 1),
                        flags,
                        Choice::Vote(CandidateId(dd as u32)),
                    ) by {
                        assert(settled_count(bucket0.skip(j - 1), flags, Choice::Vote(
                            CandidateId(dd as u32),
                        )) == settled_count(bucket0.skip(j), flags, Choice::Vote(
                            CandidateId(dd as u32),
                        )));
                    }
                    assert(settled_count(bucket0.skip(j - 1), flags, Choice::Undervote)
                        == 1 + settled_count(bucket0.skip(j), flags, Choice::Undervote));
                    assert(settled_count(bucket0.skip(j - 1), flags, Choice::Overvote)
                        == settled_count(bucket0.skip(j), flags, Choice::Overvote));
                }
            },
            Choice::Overvote => {
                st.overvote_ballots.push(b2);
                exh = exh + 1;
                proof {
                    TabulatorState::lemma_cand_votes_prefix_congruence(stm, *st, st.slots());
                    assert(st.candidate_ballots@ == stm.candidate_ballots@);
                    assert(forall|dd: int| #[trigger] st.bucket(dd) == stm.bucket(dd));
                    assert(forall|dd: int| #[trigger] st.bucket_len(dd) == stm.bucket_len(dd));
                    assert(forall|dd: int| #[trigger] st.has_bucket(dd) == stm.has_bucket(dd));
                    assert(st.total_ballots() == stm.total_ballots() + 1);
                    o_cnt = o_cnt + 1;
                    let j = moving_pre.len() as int;
                    assert(settle_choice(bucket0[j - 1].choices@, flags) == Choice::Overvote);
                    assert forall|dd: int| 0 <= dd < st.slots() implies #[trigger] dcount@[dd]
                        as int == settled_count(
                        bucket0.skip(j - 1),
                        flags,
                        Choice::Vote(CandidateId(dd as u32)),
                    ) by {
                        assert(settled_count(bucket0.skip(j - 1), flags, Choice::Vote(
                            CandidateId(dd as u32),
                        )) == settled_count(bucket0.skip(j), flags, Choice::Vote(
                            CandidateId(dd as u32),
                        )));
                    }
                    assert(settled_count(bucket0.skip(j - 1), flags, Choice::Overvote)
                        == 1 + settled_count(bucket0.skip(j), flags, Choice::Overvote));
                    assert(settled_count(bucket0.skip(j - 1), flags, Choice::Undervote)
                        == settled_count(bucket0.skip(j), flags, Choice::Undervote));
                }
            },
            Choice::Vote(c2) => {
                let d = c2.0 as usize;
                proof {
                    assert(!st.eliminated@[d as int]);
                    assert(!flags[d as int]);
                    st.lemma_bucket_le_prefix_total(d as int, st.slots());
                    assert(st.bucket_len(d as int) <= st.cand_total());
                    assert(st.cand_total() <= st.total_ballots());
                    assert(st.total_ballots() + moving@.len() + 1 == st0.total_ballots());
                    assert(st.bucket_len(d as int) < u32::MAX);
                    assert(dcount@[d as int] as int <= weight_sum(dcount@, count_weight())) by {
                        lemma_weight_sum_elem_bound(dcount@, count_weight(), d as int);
                    }
                }
                let tk = st.candidate_ballots[d].take();
                let mut bk = match tk {
                    Some(x) => x,
                    None => Vec::new(),
                };
                proof {
                    assert(bk@ =~= stm.bucket(d as int));
                }
                bk.push(b2);
                st.candidate_ballots[d] = Some(bk);
                let ghost dprev = dcount@;
                dcount[d] = dcount[d] + 1;
                proof {
                    assert(dcount@ == dprev.update(d as int, (dprev[d as int] + 1) as u32));
                    lemma_weight_sum_update(
                        dprev,
                        count_weight(),
                        d as int,
                        (dprev[d as int] + 1) as u32,
                    );
                    assert(st.candidate_ballots@ =~= stm.candidate_ballots@.update(
                        d as int,
                        Some(bk),
                    ));
                    assert forall|q: int|
                        0 <= q < st.slots() && q != d as int implies #[trigger] st.has_bucket(q)
                        == stm.has_bucket(q) && st.bucket(q) == stm.bucket(q) by {
                        assert(st.candidate_ballots@[q] == stm.candidate_ballots@[q]);
                    }
                    assert(forall|q: int|
                        0 <= q < st.slots() && q != d as int ==> #[trigger] st.bucket(q)
                            == stm.bucket(q) && st.has_bucket(q) == stm.has_bucket(q));
                    assert(st.has_bucket(d as int));
                    assert(st.bucket(d as int) =~= stm.bucket(d as int).push(b2));
                    assert(st.bucket(d as int).len() == stm.bucket(d as int).len() + 1);
                    assert(st.bucket_len(d as int) == stm.bucket_len(d as int) + 1);
                    TabulatorState::lemma_cand_votes_prefix_update(stm, *st, d as int, st.slots());
                    assert forall|dd: int| 0 <= dd < st.slots() implies #[trigger] st.bucket_len(
                        dd,
                    ) == base.bucket_len(dd) + dcount@[dd] by {
                        if dd == d as int {
                            assert(st.bucket_len(dd) == stm.bucket_len(dd) + 1);
                            assert(stm.bucket_len(dd) == base.bucket_len(dd) + dprev[dd]);
                            assert(dcount@[dd] == dprev[dd] + 1);
                        } else {
                            assert(st.bucket(dd) == stm.bucket(dd));
                            assert(st.has_bucket(dd) == stm.has_bucket(dd));
                            assert(st.bucket_len(dd) == stm.bucket_len(dd));
                            assert(stm.bucket_len(dd) == base.bucket_len(dd) + dprev[dd]);
                            assert(dcount@[dd] == dprev[dd]);
                        }
                    }
                    assert forall|cc: int| 0 <= cc < st.slots() implies #[trigger] st.bucket_len(
                        cc,
                    ) <= u32::MAX by {
                        if cc == d as int {
                            assert(st.bucket_len(cc) == stm.bucket_len(cc) + 1);
                            assert(stm.bucket_len(cc) < u32::MAX);
                        } else {
                            assert(st.bucket(cc) == stm.bucket(cc));
                            assert(st.has_bucket(cc) == stm.has_bucket(cc));
                            assert(st.bucket_len(cc) == stm.bucket_len(cc));
                            assert(stm.bucket_len(cc) <= u32::MAX);
                        }
                    }
                    assert forall|c: int| 0 <= c < st.slots() implies ballots_in_range(
                        #[trigger] st.bucket(c),
                        st.slots(),
                    ) by {
                        if c == d as int {
                            let nb = st.bucket(c);
                            assert forall|q: int| 0 <= q < nb.len() implies choices_in_range(
                                #[trigger] nb[q].choices@,
                                st.slots(),
                            ) by {
                                if q < nb.len() - 1 {
                                    assert(nb[q] == stm.bucket(c)[q]);
                                    assert(ballots_in_range(stm.bucket(c), stm.slots()));
                                } else {
                                    assert(nb[q] == b2);
                                }
                            }
                        } else {
                            assert(st.bucket(c) == stm.bucket(c));
                            assert(ballots_in_range(stm.bucket(c), stm.slots()));
                        }
                    }
                    let j = moving_pre.len() as int;
                    assert(settle_choice(bucket0[j - 1].choices@, flags) == Choice::Vote(c2));
                    assert forall|dd: int| 0 <= dd < st.slots() implies #[trigger] dcount@[dd]
                        as int == settled_count(
                        bucket0.skip(j - 1),
                        flags,
                        Choice::Vote(CandidateId(dd as u32)),
                    ) by {
                        if dd == d as int {
                            assert(Choice::Vote(CandidateId(dd as u32)) == Choice::Vote(c2));
                            assert(settled_count(bucket0.skip(j - 1), flags, Choice::Vote(
                                CandidateId(dd as u32),
                            )) == 1 + settled_count(bucket0.skip(j), flags, Choice::Vote(
                                CandidateId(dd as u32),
                            )));
                            assert(dprev[dd] as int == settled_count(bucket0.skip(j), flags,
                                Choice::Vote(CandidateId(dd as u32))));
                        } else {
                            assert(Choice::Vote(CandidateId(dd as u32)) != Choice::Vote(c2));
                            assert(settled_count(bucket0.skip(j - 1), flags, Choice::Vote(
                                CandidateId(dd as u32),
                            )) == settled_count(bucket0.skip(j), flags, Choice::Vote(
                                CandidateId(dd as u32),
                            )));
                            assert(dcount@[dd] == dprev[dd]);
                        }
                    }
                    assert(settled_count(bucket0.skip(j - 1), flags, Choice::Undervote)
                        == settled_count(bucket0.skip(j), flags, Choice::Undervote));
                    assert(settled_count(bucket0.skip(j - 1), flags, Choice::Overvote)
                        == settled_count(bucket0.skip(j), flags, Choice::Overvote));
                    assert forall|cc: int| #[trigger] st.has_bucket(cc) implies st.bucket_len(cc)
                        >= 1 by {
                        if cc == d as int {
                            assert(st.bucket_len(cc) == stm.bucket_len(cc) + 1);
                        } else {
                            assert(st.bucket(cc) == stm.bucket(cc));
                            assert(st.has_bucket(cc) == stm.has_bucket(cc));
                            assert(stm.has_bucket(cc));
                        }
                    }
                }
            },
        }
    }
    proof {
        assert(bucket0.skip(0) =~= bucket0);
        lemma_settled_count_bounds(bucket0, flags, Choice::Undervote);
        lemma_settled_count_bounds(bucket0, flags, Choice::Overvote);
    }
    // Emit this candidate's transfer records: destinations in ascending
    // candidate order, the exhausted pile last.
    let ghost emitted_base = weight_sum(transfers_out@, transfer_weight());
    let ghost tstart = transfers_out@;
    let mut d: usize = 0;
    while d < dcount.len()
        invariant
            d <= dcount@.len(),
            dcount@.len() == st.slots(),
            weight_sum(transfers_out@, transfer_weight()) == emitted_base + weight_sum(
                dcount@.take(d as int),
                count_weight(),
            ),
            transfers_out@ == tstart + transfers_for_prefix(cid, bucket0, flags, d as int),
        decreases dcount@.len() - d,
    {
        proof {
            assert(dcount@.take(d as int + 1) =~= dcount@.take(d as int).push(dcount@[d as int]));
            lemma_weight_sum_push(dcount@.take(d as int), count_weight(), dcount@[d as int]);
            assert(dcount@[d as int] as int == settled_count(
                bucket0,
                flags,
                Choice::Vote(CandidateId(d as u32)),
            ));
            lemma_settled_count_bounds(bucket0, flags, Choice::Vote(CandidateId(d as u32)));
        }
        if dcount[d] > 0 {
            let ghost tprev = transfers_out@;
            transfers_out.push(
                Transfer {
                    from: cid,
                    to: Allocatee::Candidate(CandidateId(d as u32)),
                    count: dcount[d],
                },
            );
            proof {
                lemma_weight_sum_push(
                    tprev,
                    transfer_weight(),
                    Transfer {
                        from: cid,
                        to: Allocatee::Candidate(CandidateId(d as u32)),
                        count: dcount@[d as int],
                    },
                );
                assert(transfers_out@ =~= tstart + transfers_for_prefix(
                    cid,
                    bucket0,
                    flags,
                    d as int + 1,
                ));
            }
        } else {
            proof {
                assert(transfers_for_prefix(cid, bucket0, flags, d as int + 1)
                    == transfers_for_prefix(cid, bucket0, flags, d as int));
            }
        }
        d = d + 1;
    }
    if exh > 0 {
        let ghost tprev = transfers_out@;
        transfers_out.push(Transfer { from: cid, to: Allocatee::Exhausted, count: exh });
        proof {
            lemma_weight_sum_push(
                tprev,
                transfer_weight(),
                Transfer { from: cid, to: Allocatee::Exhausted, count: exh },
            );
            assert(exh as int == exhausted_settled(bucket0, flags));
            assert(transfers_out@ =~= tstart + transfers_for(
                cid,
                bucket0,
                flags,
                st0.slots(),
            ));
        }
    } else {
        proof {
            assert(exhausted_settled(bucket0, flags) == 0);
            assert(transfers_for(cid, bucket0, flags, st0.slots()) == transfers_for_prefix(
                cid,
                bucket0,
                flags,
                st0.slots(),
            ));
        }
    }
    proof {
        assert(dcount@.take(dcount@.len() as int) =~= dcount@);
        assert(weight_sum(transfers_out@, transfer_weight()) == emitted_base + bucket_orig_len);
        assert(bucket_orig_len == st0.bucket_len(idx as int));
        assert(transfers_out@ == tstart + transfers_for(cid, bucket0, flags, st0.slots()));
        assert(bucket0 == st0.bucket(cid.0 as int));
        assert(!st.has_bucket(idx as int)) by {
            assert(!base.has_bucket(idx as int));
            if dcount@[idx as int] > 0 {
                assert(!flags[idx as int]);
            }
        }
        assert forall|c: int|
            0 <= c < st0.slots() && c != cid.0 as int && flags[c] implies #[trigger] st.bucket(c)
            == st0.bucket(c) && st.has_bucket(c) == st0.has_bucket(c) by {
            if dcount@[c] > 0 {
                assert(!flags[c]);
            }
            assert(st.bucket(c) == base.bucket(c));
            assert(base.bucket(c) == st0.bucket(c));
            assert(st.bucket_len(c) == base.bucket_len(c));
            assert(st.has_bucket(c) == (base.has_bucket(c) || dcount@[c] > 0));
        }
    }
}

/// Ordering of transfer records in a round: transfers into candidates holding
/// more ballots come first, transfers into the exhausted pile last.
pub open spec fn transfer_key(s: TabulatorState, t: Transfer) -> int {
    match t.to {
        Allocatee::Exhausted => 0,
        Allocatee::Candidate(c) => -s.bucket_len(c.0 as int),
    }
}

pub open spec fn transfers_sorted(s: TabulatorState, ts: Seq<Transfer>) -> bool {
    forall|i: int, j: int|
        0 <= i < j < ts.len() ==> #[trigger] transfer_key(s, ts[i]) <= #[trigger] transfer_key(
            s,
            ts[j],
        )
}

/// The choice a choice list settles on: the first rank that is not a vote
/// for an eliminated candidate (an exhausted list settles on an undervote).
pub open spec fn settle_from(choices: Seq<Choice>, elim: Seq<bool>) -> Choice
    decreases choices.len(),
{
    if choices.len() == 0 {
        Choice::Undervote
    } else {
        match choices[0] {
            Choice::Vote(c) => if (c.0 as int) < elim.len() && elim[c.0 as int] {
                settle_from(choices.drop_first(), elim)
            } else {
                Choice::Vote(c)
            },
            Choice::Undervote => Choice::Undervote,
            Choice::Overvote => Choice::Overvote,
        }
    }
}

/// Where a ballot drained from an eliminated pile settles: its current top
/// rank is popped, then the rest is walked to the first surviving
/// preference.
pub open spec fn settle_choice(choices: Seq<Choice>, elim: Seq<bool>) -> Choice {
    if choices.len() == 0 {
        Choice::Undervote
    } else {
        settle_from(choices.drop_first(), elim)
    }
}

/// How many ballots of a pile settle on `ch`.
pub open spec fn settled_count(bucket: Seq<NormalizedBallot>, elim: Seq<bool>, ch: Choice) -> int
    decreases bucket.len(),
{
    if bucket.len() == 0 {
        0
    } else {
        (if settle_choice(bucket.first().choices@, elim) == ch {
            1int
        } else {
            0int
        }) + settled_count(bucket.drop_first(), elim, ch)
    }
}

/// Ballots of a drained pile that settle on the exhausted pile.
pub open spec fn exhausted_settled(bucket: Seq<NormalizedBallot>, elim: Seq<bool>) -> int {
    settled_count(bucket, elim, Choice::Undervote) + settled_count(bucket, elim, Choice::Overvote)
}

/// The transfer records a drained pile emits for destinations below `d`, in
/// ascending candidate order, zero counts skipped.
pub open spec fn transfers_for_prefix(
    from: CandidateId,
    bucket: Seq<NormalizedBallot>,
    elim: Seq<bool>,
    d: int,
) -> Seq<Transfer>
    decreases d,
{
    if d <= 0 {
        Seq::empty()
    } else {
        let p = transfers_for_prefix(from, bucket, elim, d - 1);
        let cnt = settled_count(bucket, elim, Choice::Vote(CandidateId((d - 1) as u32)));
        if cnt > 0 {
            p.push(
                Transfer {
                    from,
                    to: Allocatee::Candidate(CandidateId((d - 1) as u32)),
                    count: cnt as u32,
                },
            )
        } else {
            p
        }
    }
}

/// All transfer records a drained pile emits: candidate destinations in
/// ascending order, the exhausted pile last.
pub open spec fn transfers_for(
    from: CandidateId,
    bucket: Seq<NormalizedBallot>,
    elim: Seq<bool>,
    n: int,
) -> Seq<Transfer> {
    let p = transfers_for_prefix(from, bucket, elim, n);
    if exhausted_settled(bucket, elim) > 0 {
        p.push(
            Transfer {
                from,
                to: Allocatee::Exhausted,
                count: exhausted_settled(bucket, elim) as u32,
            },
        )
    } else {
        p
    }
}

impl TabulatorState {
    /// Ballots settling on `ch` out of all piles drained so far: the piles
    /// of the sorted lines `sv[es..k)`, walked against `elim`.
    pub open spec fn settled_into(
        self,
        sv: Seq<(CandidateId, u32)>,
        elim: Seq<bool>,
        es: int,
        k: int,
        ch: Choice,
    ) -> int
        decreases k - es,
    {
        if k <= es {
            0
        } else {
            self.settled_into(sv, elim, es, k - 1, ch) + settled_count(
                self.bucket(sv[k - 1].0.0 as int),
                elim,
                ch,
            )
        }
    }

    /// The transfer records of all piles drained so far, in drain order.
    pub open spec fn spec_transfers_upto(
        self,
        sv: Seq<(CandidateId, u32)>,
        elim: Seq<bool>,
        es: int,
        k: int,
    ) -> Seq<Transfer>
        decreases k - es,
    {
        if k <= es {
            Seq::empty()
        } else {
            self.spec_transfers_upto(sv, elim, es, k - 1) + transfers_for(
                sv[k - 1].0,
                self.bucket(sv[k - 1].0.0 as int),
                elim,
                self.slots(),
            )
        }
    }
}

pub proof fn lemma_settled_count_bounds(bucket: Seq<NormalizedBallot>, elim: Seq<bool>, ch: Choice)
    ensures
        0 <= settled_count(bucket, elim, ch) <= bucket.len(),
    decreases bucket.len(),
{
    if bucket.len() > 0 {
        lemma_settled_count_bounds(bucket.drop_first(), elim, ch);
    }
}

/// Every record a drained pile emits names that pile's candidate as its
/// source.
pub proof fn lemma_transfers_for_from(
    from: CandidateId,
    bucket: Seq<NormalizedBallot>,
    elim: Seq<bool>,
    n: int,
)
    ensures
        forall|j: int|
            0 <= j < transfers_for(from, bucket, elim, n).len() ==> (#[trigger] transfers_for(
                from,
                bucket,
                elim,
                n,
            )[j]).from == from,
{
    lemma_transfers_for_prefix_from(from, bucket, elim, n);
}

proof fn lemma_transfers_for_prefix_from(
    from: CandidateId,
    bucket: Seq<NormalizedBallot>,
    elim: Seq<bool>,
    d: int,
)
    ensures
        forall|j: int|
            0 <= j < transfers_for_prefix(from, bucket, elim, d).len() ==> (
            #[trigger] transfers_for_prefix(from, bucket, elim, d)[j]).from == from,
    decreases d,
{
    if d > 0 {
        lemma_transfers_for_prefix_from(from, bucket, elim, d - 1);
    }
}

/// Every record drained so far names one of the drained lines' candidates.
pub proof fn lemma_transfers_upto_from(
    s: TabulatorState,
    sv: Seq<(CandidateId, u32)>,
    elim: Seq<bool>,
    es: int,
    k: int,
)
    requires
        es <= k,
    ensures
        forall|j: int|
            0 <= j < s.spec_transfers_upto(sv, elim, es, k).len() ==> exists|q: int|
                es <= q < k && (#[trigger] s.spec_transfers_upto(sv, elim, es, k)[j]).from
                    == sv[q].0,
    decreases k - es,
{
    if k > es {
        lemma_transfers_upto_from(s, sv, elim, es, k - 1);
        let p = s.spec_transfers_upto(sv, elim, es, k - 1);
        let t = transfers_for(sv[k - 1].0, s.bucket(sv[k - 1].0.0 as int), elim, s.slots());
        lemma_transfers_for_from(sv[k - 1].0, s.bucket(sv[k - 1].0.0 as int), elim, s.slots());
        assert forall|j: int|
            0 <= j < s.spec_transfers_upto(sv, elim, es, k).len() implies exists|q: int|
            es <= q < k && (#[trigger] s.spec_transfers_upto(sv, elim, es, k)[j]).from
                == sv[q].0 by {
            if j < p.len() {
                assert(s.spec_transfers_upto(sv, elim, es, k)[j] == p[j]);
                let q0 = choose|q0: int| es <= q0 < k - 1 && p[j].from == sv[q0].0;
                assert(es <= q0 < k && s.spec_transfers_upto(sv, elim, es, k)[j].from == sv[q0].0);
            } else {
                assert(s.spec_transfers_upto(sv, elim, es, k)[j] == t[j - p.len()]);
                assert(t[j - p.len()].from == sv[k - 1].0);
            }
        }
    }
}

/// Walks a ballot past every eliminated candidate: pops the top choice, then
/// keeps popping while the new top is a vote for an eliminated candidate.
/// Returns the settled top choice and the remaining ballot.
fn settle_ballot(ballot: NormalizedBallot, eliminated: &Vec<bool>) -> (res: (Choice,
    NormalizedBallot))
    requires
        choices_in_range(ballot.choices@, eliminated@.len() as int),
    ensures
        choices_in_range(res.1.choices@, eliminated@.len() as int),
        res.0 == res.1.spec_top_vote(),
        match res.0 {
            Choice::Vote(c) => !eliminated@[c.0 as int],
            _ => true,
        },
        res.0 == settle_choice(ballot.choices@, eliminated@),
{
    let mut b = ballot;
    loop
        invariant
            choices_in_range(b.choices@, eliminated@.len() as int),
            settle_choice(b.choices@, eliminated@) == settle_choice(ballot.choices@, eliminated@),
        decreases b.choices@.len(),
    {
        let ghost before = b.choices@;
        b = b.pop_top_vote();
        let next = b.top_vote();
        proof {
            if before.len() == 0 {
                assert(b.choices@ == before);
                assert(settle_choice(before, eliminated@) == Choice::Undervote);
                assert(next == Choice::Undervote);
            } else {
                assert(b.choices@ == before.drop_first());
                assert(settle_choice(before, eliminated@) == settle_from(b.choices@, eliminated@));
                if b.choices@.len() == 0 {
                    assert(settle_from(b.choices@, eliminated@) == Choice::Undervote);
                    assert(next == Choice::Undervote);
                } else {
                    assert(next == b.choices@[0]);
                }
            }
        }
        match next {
            Choice::Vote(c) => {
                if !eliminated[c.0 as usize] {
                    proof {
                        assert(settle_from(b.choices@, eliminated@) == next);
                    }
                    return (next, b);
                }
                proof {
                    assert(settle_from(b.choices@, eliminated@) == settle_from(
                        b.choices@.drop_first(),
                        eliminated@,
                    ));
                    assert(settle_choice(b.choices@, eliminated@) == settle_from(
                        b.choices@.drop_first(),
                        eliminated@,
                    ));
                }
            },
            _ => {
                proof {
                    if before.len() > 0 && b.choices@.len() > 0 {
                        assert(settle_from(b.choices@, eliminated@) == next);
                    }
                }
                return (next, b);
            },
        }
    }
}

/// Sorts transfer records so that transfers into better-stocked surviving
/// candidates come first and transfers into the exhausted pile come last.
fn sort_transfers(ts: Vec<Transfer>, st: &TabulatorState) -> (r: Vec<Transfer>)
    requires
        st.slots() <= u32::MAX,
        forall|c: int| 0 <= c < st.slots() ==> #[trigger] st.bucket_len(c) <= u32::MAX,
    ensures
        r@.to_multiset() == ts@.to_multiset(),
        r@.len() == ts@.len(),
        transfers_sorted(*st, r@),
        weight_sum(r@, transfer_weight()) == weight_sum(ts@, transfer_weight()),
{
    broadcast use vstd::seq_lib::group_to_multiset_ensures;

    let ghost orig = ts@;
    let mut rest = ts;
    let mut sorted: Vec<Transfer> = Vec::new();
    proof {
        assert(sorted@.to_multiset().add(rest@.to_multiset()) =~= orig.to_multiset());
        assert(weight_sum(sorted@, transfer_weight()) == 0);
    }
    while rest.len() > 0
        invariant
            st.slots() <= u32::MAX,
            forall|c: int| 0 <= c < st.slots() ==> #[trigger] st.bucket_len(c) <= u32::MAX,
            sorted@.to_multiset().add(rest@.to_multiset()) == orig.to_multiset(),
            sorted@.len() + rest@.len() == orig.len(),
            transfers_sorted(*st, sorted@),
            forall|i: int, j: int|
                0 <= i < sorted@.len() && 0 <= j < rest@.len() ==> #[trigger] transfer_key(
                    *st,
                    sorted@[i],
                ) <= #[trigger] transfer_key(*st, rest@[j]),
            weight_sum(sorted@, transfer_weight()) + weight_sum(rest@, transfer_weight())
                == weight_sum(orig, transfer_weight()),
        decreases rest.len(),
    {
        let mut m: usize = 0;
        let mut k: usize = 1;
        while k < rest.len()
            invariant
                st.slots() <= u32::MAX,
                forall|c: int| 0 <= c < st.slots() ==> #[trigger] st.bucket_len(c) <= u32::MAX,
                0 < rest@.len(),
                m < k <= rest@.len(),
                forall|i: int|
                    0 <= i < k ==> #[trigger] transfer_key(*st, rest@[m as int]) <= #[trigger]
                        transfer_key(*st, rest@[i]),
            decreases rest@.len() - k,
        {
            if transfer_before(&rest[k], &rest[m], st) {
                m = k;
            }
            k = k + 1;
        }
        let ghost rest_old = rest@;
        let ghost sorted_old = sorted@;
        let x = rest.remove(m);
        sorted.push(x);
        proof {
            rest_old.to_multiset_ensures();
            sorted_old.to_multiset_ensures();
            assert(rest@ == rest_old.remove(m as int));
            assert(rest_old.contains(x));
            assert(rest_old.remove(m as int).to_multiset() =~= rest_old.to_multiset().remove(
                rest_old[m as int],
            ));
            assert(sorted_old.push(x).to_multiset() =~= sorted_old.to_multiset().insert(x));
            assert(sorted@.to_multiset().add(rest@.to_multiset()) =~= orig.to_multiset());
            lemma_weight_sum_remove(rest_old, transfer_weight(), m as int);
            lemma_weight_sum_push(sorted_old, transfer_weight(), x);
            assert forall|i: int, j: int|
                0 <= i < sorted@.len() && 0 <= j < rest@.len() implies #[trigger] transfer_key(
                *st,
                sorted@[i],
            ) <= #[trigger] transfer_key(*st, rest@[j]) by {
                if i < sorted_old.len() {
                    if j < m {
                        assert(rest@[j] == rest_old[j]);
                    } else {
                        assert(rest@[j] == rest_old[j + 1]);
                    }
                } else {
                    assert(sorted@[i] == x);
                    if j < m {
                        assert(transfer_key(*st, rest_old[m as int]) <= transfer_key(
                            *st,
                            rest_old[j],
                        ));
                    } else {
                        assert(transfer_key(*st, rest_old[m as int]) <= transfer_key(
                            *st,
                            rest_old[j + 1],
                        ));
                    }
                }
            }
        }
    }
    proof {
        assert(rest@.to_multiset().len() == 0);
        assert(sorted@.to_multiset().add(rest@.to_multiset()) =~= sorted@.to_multiset());
        assert(weight_sum(rest@, transfer_weight()) == 0);
    }
    sorted
}

/// Whether transfer `a` sorts strictly before transfer `b`.
fn transfer_before(a: &Transfer, b: &Transfer, st: &TabulatorState) -> (r: bool)
    requires
        st.slots() <= u32::MAX,
        forall|c: int| 0 <= c < st.slots() ==> #[trigger] st.bucket_len(c) <= u32::MAX,
    ensures
        r == (transfer_key(*st, *a) < transfer_key(*st, *b)),
{
    match (a.to, b.to) {
        (Allocatee::Exhausted, _) => false,
        (Allocatee::Candidate(_), Allocatee::Exhausted) => bucket_len_of(st, a) > 0,
        (Allocatee::Candidate(_), Allocatee::Candidate(_)) => {
            bucket_len_of(st, a) > bucket_len_of(st, b)
        },
    }
}

/// The current size of the pile a transfer points into (0 for the exhausted
/// pile or an absent pile).
fn bucket_len_of(st: &TabulatorState, t: &Transfer) -> (r: u32)
    requires
        st.slots() <= u32::MAX,
        forall|c: int| 0 <= c < st.slots() ==> #[trigger] st.bucket_len(c) <= u32::MAX,
    ensures
        r as int == match t.to {
            Allocatee::Exhausted => 0int,
            Allocatee::Candidate(c) => st.bucket_len(c.0 as int),
        },
{
    match t.to {
        Allocatee::Exhausted => 0,
        Allocatee::Candidate(c) => {
            let idx = c.0 as usize;
            if idx < st.candidate_ballots.len() {
                let slot = &st.candidate_ballots[idx];
                match slot {
                    Some(bucket) => bucket.len() as u32,
                    None => 0,
                }
            } else {
                0
            }
        },
    }
}

/// Votes surrendered between two rounds, computed along the first round's
/// lines, equal the suffix sum of the sorted lines from the elimination cut.
pub proof fn lemma_dropped_votes_suffix(
    a1: Seq<TabulatorAllocation>,
    a2: Seq<TabulatorAllocation>,
    sv: Seq<(CandidateId, u32)>,
    es: int,
    j: int,
)
    requires
        a1.len() == sv.len() + 1,
        forall|i: int|
            0 <= i < sv.len() ==> #[trigger] a1[i] == (TabulatorAllocation {
                allocatee: Allocatee::Candidate(sv[i].0),
                votes: sv[i].1,
            }),
        a1[sv.len() as int].allocatee == Allocatee::Exhausted,
        0 <= es <= sv.len(),
        0 <= j <= sv.len(),
        forall|k: int|
            0 <= k < sv.len() ==> (#[trigger] appears_in(a2, sv[k].0) <==> k < es),
    ensures
        dropped_votes(a1.skip(j), a2) == weight_sum(
            sv.skip(if j > es { j } else { es }),
            vote_weight(),
        ),
    decreases a1.len() - j,
{
    if j == sv.len() {
        assert(a1.skip(j).len() == 1);
        assert(a1.skip(j)[0] == a1[j]);
        assert(a1.skip(j).first().allocatee == Allocatee::Exhausted);
        assert(a1.skip(j).drop_first() =~= Seq::<TabulatorAllocation>::empty());
        assert(dropped_votes(Seq::<TabulatorAllocation>::empty(), a2) == 0);
        assert(dropped_votes(a1.skip(j), a2) == 0);
        assert(sv.skip(j).len() == 0);
        assert(weight_sum(sv.skip(j), vote_weight()) == 0);
    } else {
        lemma_dropped_votes_suffix(a1, a2, sv, es, j + 1);
        assert(a1.skip(j).first() == a1[j]);
        assert(a1.skip(j).drop_first() =~= a1.skip(j + 1));
        assert(a1[j].allocatee == Allocatee::Candidate(sv[j].0));
        if j >= es {
            assert(!appears_in(a2, sv[j].0));
            lemma_weight_sum_suffix_step(sv, vote_weight(), j);
            assert(dropped_votes(a1.skip(j), a2) == sv[j].1 + dropped_votes(a1.skip(j + 1), a2));
        } else {
            assert(appears_in(a2, sv[j].0));
            assert(dropped_votes(a1.skip(j), a2) == dropped_votes(a1.skip(j + 1), a2));
        }
    }
}

/// No ballot can rank a candidate outside the tracked range, so the
/// corresponding pile filter is empty.
pub proof fn lemma_top_filter_out_of_range(bs: Seq<NormalizedBallot>, n: int, c: CandidateId)
    requires
        forall|i: int| 0 <= i < bs.len() ==> choices_in_range(#[trigger] bs[i].choices@, n),
        c.0 as int >= n,
    ensures
        top_filter(bs, Choice::Vote(c)).len() == 0,
    decreases bs.len(),
{
    if bs.len() > 0 {
        assert(forall|i: int|
            0 <= i < bs.drop_last().len() ==> choices_in_range(
                #[trigger] bs.drop_last()[i].choices@,
                n,
            )) by {
            assert(forall|i: int| 0 <= i < bs.len() - 1 ==> bs.drop_last()[i] == bs[i]);
        }
        lemma_top_filter_out_of_range(bs.drop_last(), n, c);
        assert(bs.last() == bs[bs.len() - 1]);
        if bs.last().spec_top_vote() == Choice::Vote(c) {
            assert(bs.last().choices@.len() > 0);
            assert(match bs.last().choices@[0] {
                Choice::Vote(cc) => cc.0 < n,
                _ => true,
            });
            assert(false);
        }
    }
}

/// The round a freshly bucketed state reports: every pile filter is exact.
pub open spec fn round_conserves(r: TabulatorRound, n: int) -> bool {
    r.continuing_ballots as int + r.undervote as int + r.overvote as int == n
}

/// Copies a transfer list (element type is plain data).
fn clone_transfers(ts: &Vec<Transfer>) -> (r: Vec<Transfer>)
    ensures
        r@ == ts@,
{
    let mut r: Vec<Transfer> = Vec::new();
    let mut i: usize = 0;
    while i < ts.len()
        invariant
            i <= ts@.len(),
            r@ == ts@.take(i as int),
        decreases ts@.len() - i,
    {
        r.push(ts[i]);
        proof {
            assert(ts@.take(i + 1) =~= ts@.take(i as int).push(ts@[i as int]));
        }
        i = i + 1;
    }
    proof {
        assert(ts@.take(ts@.len() as int) =~= ts@);
        assert(r@ == ts@);
    }
    r
}


/// Runs the full instant-runoff tabulation: buckets the ballots, emits one
/// round per state, and eliminates trailing candidates until at most two
/// remain (or the safety ceiling of 1000 rounds is hit).
///
/// The contract carries the tabulation laws: every round conserves the ballot
/// count; the exhausted line follows the round-zero accounting rule; a
/// surviving candidate's count never decreases; a candidate who leaves the
/// allocations never returns; and each round's transfers account exactly for
/// the votes surrendered by the candidates eliminated in between.
#[verifier::loop_isolation(false)]
#[verifier::rlimit(100)]
pub fn tabulate(ballots: Vec<NormalizedBallot>, tabulation_options: &TabulationOptions) -> (rounds:
    Vec<TabulatorRound>)
    requires
        ballots@.len() <= u32::MAX,
        forall|i: int|
            0 <= i < ballots@.len() ==> choices_in_range(
                #[trigger] ballots@[i].choices@,
                u32::MAX as int,
            ),
    ensures
        rounds@.len() >= 1,
        forall|r: int|
            0 <= r < rounds@.len() ==> round_conserves(#[trigger] rounds@[r], ballots@.len() as int),
        forall|r: int|
            0 <= r < rounds@.len() ==> {
                let a = (#[trigger] rounds@[r]).allocations@;
                &&& a.len() >= 1
                &&& a[a.len() - 1].allocatee == Allocatee::Exhausted
                &&& a[a.len() - 1].votes as int == (if tabulation_options.spec_nyc() && r == 0 {
                    0int
                } else {
                    rounds@[r].undervote as int + rounds@[r].overvote as int
                })
                &&& forall|i: int| 0 <= i < a.len() - 1 ==> (#[trigger] a[i].allocatee) is Candidate
                &&& votes_sorted(cand_lines(a))
            },
        rounds@[0].transfers@.len() == 0,
        forall|c: CandidateId|
            #[trigger] votes_for(rounds@[0].allocations@, c) == top_filter(
                ballots@,
                Choice::Vote(c),
            ).len(),
        rounds@[0].undervote as int == top_filter(ballots@, Choice::Undervote).len(),
        rounds@[0].overvote as int == top_filter(ballots@, Choice::Overvote).len(),
        forall|r: int, c: CandidateId|
            0 <= r < rounds@.len() - 1 && #[trigger] appears_in(rounds@[r].allocations@, c)
                && #[trigger] appears_in(rounds@[r + 1].allocations@, c) ==> votes_for(
                rounds@[r + 1].allocations@,
                c,
            ) >= votes_for(rounds@[r].allocations@, c),
        forall|r: int, j: int, c: CandidateId|
            0 <= r && r + 1 <= j < rounds@.len() && #[trigger] appears_in(
                rounds@[r].allocations@,
                c,
            ) && !appears_in(rounds@[r + 1].allocations@, c) ==> !#[trigger] appears_in(
                rounds@[j].allocations@,
                c,
            ),
        forall|r: int|
            1 <= r < rounds@.len() ==> weight_sum(
                (#[trigger] rounds@[r]).transfers@,
                transfer_weight(),
            ) == dropped_votes(rounds@[r - 1].allocations@, rounds@[r].allocations@),
        forall|r: int| 0 <= r < rounds@.len() - 1 ==> (#[trigger] rounds@[r]).allocations@.len() > 3,
        rounds@[rounds@.len() - 1].allocations@.len() <= 3 || rounds@.len() == 1001,
        rounds@.len() <= 1001,
        forall|r: int|
            0 <= r < rounds@.len() ==> weight_sum(
                cand_lines((#[trigger] rounds@[r]).allocations@),
                vote_weight(),
            ) == rounds@[r].continuing_ballots as int,
        forall|r: int|
            0 <= r < rounds@.len() - 1 ==> (#[trigger] rounds@[r + 1]).undervote
                >= rounds@[r].undervote && rounds@[r + 1].overvote >= rounds@[r].overvote,
        forall|r: int|
            0 <= r < rounds@.len() - 1 ==> {
                let sv = cand_lines((#[trigger] rounds@[r]).allocations@);
                let es = TabulatorState::spec_elim_start(sv);
                forall|k: int|
                    0 <= k < sv.len() ==> (#[trigger] appears_in(
                        rounds@[r + 1].allocations@,
                        sv[k].0,
                    ) <==> k < es)
            },
        forall|r: int, j: int|
            1 <= r < rounds@.len() && 0 <= j < rounds@[r].transfers@.len() ==> from_in_suffix(
                cand_lines(rounds@[r - 1].allocations@),
                TabulatorState::spec_elim_start(cand_lines(rounds@[r - 1].allocations@)),
                (#[trigger] rounds@[r].transfers@[j]).from,
            ),
        forall|r: int, i: int|
            0 <= r < rounds@.len() && 0 <= i < rounds@[r].allocations@.len() - 1
                ==> (#[trigger] rounds@[r].allocations@[i]).votes >= 1,
        forall|r: int| 1 <= r < rounds@.len() ==> (#[trigger] rounds@[r]).transfers@.len() >= 1,
{
    let ghost nb = ballots@;
    let mut state = TabulatorState::new(ballots);
    let ghost state0 = state;
    let mut rounds: Vec<TabulatorRound> = Vec::new();
    let mut round_number: usize = 0;
    let mut done: bool = false;
    let ghost mut prev = state;
    while !done
        invariant
            state.wf(),
            state.total_ballots() == nb.len(),
            round_number <= 1000,
            rounds@.len() == round_number + (if done {
                1int
            } else {
                0int
            }),
            // History: laws over the rounds pushed so far.
            forall|r: int|
                0 <= r < rounds@.len() ==> round_conserves(#[trigger] rounds@[r], nb.len() as int),
            forall|r: int|
                0 <= r < rounds@.len() ==> {
                    let a = (#[trigger] rounds@[r]).allocations@;
                    &&& a.len() >= 1
                    &&& a[a.len() - 1].allocatee == Allocatee::Exhausted
                    &&& a[a.len() - 1].votes as int == (if tabulation_options.spec_nyc() && r == 0 {
                        0int
                    } else {
                        rounds@[r].undervote as int + rounds@[r].overvote as int
                    })
                    &&& forall|i: int|
                        0 <= i < a.len() - 1 ==> (#[trigger] a[i].allocatee) is Candidate
                    &&& votes_sorted(cand_lines(a))
                },
            rounds@.len() > 0 ==> rounds@[0].transfers@.len() == 0,
            rounds@.len() > 0 ==> forall|c: CandidateId|
                #[trigger] votes_for(rounds@[0].allocations@, c) == top_filter(
                    nb,
                    Choice::Vote(c),
                ).len(),
            rounds@.len() > 0 ==> rounds@[0].undervote as int == top_filter(
                nb,
                Choice::Undervote,
            ).len() && rounds@[0].overvote as int == top_filter(nb, Choice::Overvote).len(),
            forall|r: int, c: CandidateId|
                0 <= r < rounds@.len() - 1 && #[trigger] appears_in(rounds@[r].allocations@, c)
                    && #[trigger] appears_in(rounds@[r + 1].allocations@, c) ==> votes_for(
                    rounds@[r + 1].allocations@,
                    c,
                ) >= votes_for(rounds@[r].allocations@, c),
            forall|r: int, j: int, c: CandidateId|
                0 <= r && r + 1 <= j < rounds@.len() && #[trigger] appears_in(
                    rounds@[r].allocations@,
                    c,
                ) && !appears_in(rounds@[r + 1].allocations@, c) ==> !#[trigger] appears_in(
                    rounds@[j].allocations@,
                    c,
                ),
            forall|r: int|
                1 <= r < rounds@.len() ==> weight_sum(
                    (#[trigger] rounds@[r]).transfers@,
                    transfer_weight(),
                ) == dropped_votes(rounds@[r - 1].allocations@, rounds@[r].allocations@),
            forall|r: int|
                0 <= r < rounds@.len() - 1 ==> (#[trigger] rounds@[r]).allocations@.len() > 3,
            done ==> rounds@[rounds@.len() - 1].allocations@.len() <= 3 || rounds@.len() == 1001,
            forall|r: int|
                0 <= r < rounds@.len() ==> weight_sum(
                    cand_lines((#[trigger] rounds@[r]).allocations@),
                    vote_weight(),
                ) == rounds@[r].continuing_ballots as int,
            forall|r: int|
                0 <= r < rounds@.len() - 1 ==> (#[trigger] rounds@[r + 1]).undervote
                    >= rounds@[r].undervote && rounds@[r + 1].overvote >= rounds@[r].overvote,
            forall|r: int|
                0 <= r < rounds@.len() - 1 ==> {
                    let sv = cand_lines((#[trigger] rounds@[r]).allocations@);
                    let es = TabulatorState::spec_elim_start(sv);
                    forall|k: int|
                        0 <= k < sv.len() ==> (#[trigger] appears_in(
                            rounds@[r + 1].allocations@,
                            sv[k].0,
                        ) <==> k < es)
                },
            forall|r: int, j: int|
                1 <= r < rounds@.len() && 0 <= j < rounds@[r].transfers@.len() ==> from_in_suffix(
                    cand_lines(rounds@[r - 1].allocations@),
                    TabulatorState::spec_elim_start(cand_lines(rounds@[r - 1].allocations@)),
                    (#[trigger] rounds@[r].transfers@[j]).from,
                ),
            forall|r: int, i: int|
                0 <= r < rounds@.len() && 0 <= i < rounds@[r].allocations@.len() - 1
                    ==> (#[trigger] rounds@[r].allocations@[i]).votes >= 1,
            forall|r: int|
                1 <= r < rounds@.len() ==> (#[trigger] rounds@[r]).transfers@.len() >= 1,
            // Linking the live state to the last pushed round.
            !done && round_number > 0 ==> {
                let prevR = rounds@[round_number - 1];
                let sv = prev.sorted_votes();
                let es = TabulatorState::spec_elim_start(sv);
                &&& prev.wf()
                &&& votes_sorted(sv)
                &&& sv.to_multiset() == prev.cand_votes().to_multiset()
                &&& prevR.allocations@.len() > 3
                &&& prev.slots() == state.slots()
                &&& cand_lines(prevR.allocations@) == sv
                &&& prevR.allocations@.len() == sv.len() + 1
                &&& (forall|c: CandidateId|
                    #[trigger] appears_in(prevR.allocations@, c) <==> prev.has_bucket(c.0 as int))
                &&& (forall|c: CandidateId|
                    appears_in(prevR.allocations@, c) ==> #[trigger] votes_for(
                        prevR.allocations@,
                        c,
                    ) == prev.bucket_len(c.0 as int))
                &&& (forall|k: int|
                    es <= k < sv.len() ==> !state.has_bucket((#[trigger] sv[k]).0.0 as int))
                &&& (forall|k: int|
                    0 <= k < es ==> state.has_bucket((#[trigger] sv[k]).0.0 as int))
                &&& weight_sum(state.transfers@, transfer_weight()) == weight_sum(
                    sv.skip(es),
                    vote_weight(),
                )
                &&& (forall|c: int|
                    0 <= c < prev.slots() && prev.has_bucket(c) && !state.is_eliminated(c)
                        ==> state.has_bucket(c) && state.bucket_len(c) >= prev.bucket_len(c))
                &&& (forall|c: int|
                    0 <= c < prev.slots() && prev.has_bucket(c) && !state.has_bucket(c)
                        ==> state.is_eliminated(c))
                &&& prevR.undervote as int <= state.undervote_ballots@.len()
                &&& prevR.overvote as int <= state.overvote_ballots@.len()
                &&& (forall|j: int|
                    0 <= j < state.transfers@.len() ==> from_in_suffix(
                        sv,
                        es,
                        (#[trigger] state.transfers@[j]).from,
                    ))
            },
            !done && round_number == 0 ==> state == state0 && state.transfers@.len() == 0,
            // Candidates dropped anywhere in history stay eliminated in the
            // live state.
            !done ==> forall|r: int, c: CandidateId|
                0 <= r < round_number - 1 && #[trigger] appears_in(rounds@[r].allocations@, c)
                    && !appears_in(rounds@[r + 1].allocations@, c) ==> state.is_eliminated(
                    c.0 as int,
                ),
        decreases (1001 - round_number) * 2 + (if done {
            0int
        } else {
            1int
        }),
    {
        let ghost rounds_pre = rounds@;
        let round = state.as_round(tabulation_options, round_number);
        let n_alloc = round.allocations.len();
        let ghost sv_cur = state.sorted_votes();
        proof {
            // The round's candidate lines are the state's sorted vote lines.
            assert(cand_lines(round.allocations@).to_multiset()
                == state.cand_votes().to_multiset());
            state.lemma_sorted_votes_is(cand_lines(round.allocations@));
            assert(cand_lines(round.allocations@) == sv_cur);
            assert(state.cand_total() + state.undervote_ballots@.len()
                + state.overvote_ballots@.len() == nb.len());
            assert(round_conserves(round, nb.len() as int));
        }
        rounds.push(round);
        proof {
            assert(rounds@ == rounds_pre.push(round));
            assert(rounds@[round_number as int] == round);
            assert(forall|r: int| 0 <= r < rounds_pre.len() ==> rounds@[r] == rounds_pre[r]);
            if round_number == 0 {
                assert(rounds@[0].transfers@.len() == 0);
                assert forall|c: CandidateId| #[trigger] votes_for(rounds@[0].allocations@, c)
                    == top_filter(nb, Choice::Vote(c)).len() by {
                    if c.0 < state0.slots() {
                        assert(state0.bucket(c.0 as int) == top_filter(nb, Choice::Vote(c)));
                        if appears_in(rounds@[0].allocations@, c) {
                            assert(votes_for(rounds@[0].allocations@, c) == state0.bucket_len(
                                c.0 as int,
                            ));
                        } else {
                            assert(!state0.has_bucket(c.0 as int));
                            assert(top_filter(nb, Choice::Vote(c)).len() == 0);
                        }
                    } else {
                        assert(!appears_in(rounds@[0].allocations@, c)) by {
                            if appears_in(rounds@[0].allocations@, c) {
                                assert(state0.has_bucket(c.0 as int));
                            }
                        }
                        assert(forall|i: int|
                            0 <= i < nb.len() ==> choices_in_range(
                                #[trigger] nb[i].choices@,
                                state0.slots(),
                            ));
                        lemma_top_filter_out_of_range(nb, state0.slots(), c);
                        lemma_votes_for_absent(rounds@[0].allocations@, c);
                    }
                }
            } else {
                // Law B for the new pair of rounds.
                let prevR = rounds@[round_number - 1];
                let svp = prev.sorted_votes();
                let es = TabulatorState::spec_elim_start(svp);
                assert forall|c: CandidateId|
                    #[trigger] appears_in(prevR.allocations@, c) && #[trigger] appears_in(
                    round.allocations@,
                    c,
                ) implies votes_for(round.allocations@, c) >= votes_for(prevR.allocations@, c) by {
                    assert(prev.has_bucket(c.0 as int));
                    assert(state.has_bucket(c.0 as int));
                    if state.is_eliminated(c.0 as int) {
                        assert(!state.has_bucket(c.0 as int));
                    }
                    assert(state.bucket_len(c.0 as int) >= prev.bucket_len(c.0 as int));
                    assert(votes_for(round.allocations@, c) == state.bucket_len(c.0 as int));
                    assert(votes_for(prevR.allocations@, c) == prev.bucket_len(c.0 as int));
                }
                // Law C: extend the no-resurrection history to the new round.
                assert forall|r: int, c: CandidateId|
                    0 <= r < round_number - 1 && #[trigger] appears_in(rounds@[r].allocations@, c)
                        && !appears_in(rounds@[r + 1].allocations@, c) implies !appears_in(
                    round.allocations@,
                    c,
                ) by {
                    assert(state.is_eliminated(c.0 as int));
                    assert(!state.has_bucket(c.0 as int));
                    if appears_in(round.allocations@, c) {
                        assert(state.has_bucket(c.0 as int));
                    }
                }
                // Law D for the new pair of rounds.
                assert(weight_sum(round.transfers@, transfer_weight()) == weight_sum(
                    svp.skip(es),
                    vote_weight(),
                ));
                assert forall|k: int|
                    0 <= k < svp.len() implies (#[trigger] appears_in(
                    round.allocations@,
                    svp[k].0,
                ) <==> k < es) by {
                    prev.lemma_votes_entries(svp);
                    if k < es {
                        assert(state.has_bucket(svp[k].0.0 as int));
                    } else {
                        assert(!state.has_bucket(svp[k].0.0 as int));
                    }
                }
                assert forall|i: int| 0 <= i < svp.len() implies #[trigger] prevR.allocations@[i]
                    == (TabulatorAllocation {
                    allocatee: Allocatee::Candidate(svp[i].0),
                    votes: svp[i].1,
                }) by {
                    assert(cand_lines(prevR.allocations@)[i] == svp[i]);
                    assert((prevR.allocations@[i].allocatee) is Candidate);
                }
                TabulatorState::lemma_elim_start_bounds(svp);
                lemma_dropped_votes_suffix(prevR.allocations@, round.allocations@, svp, es, 0);
                assert(prevR.allocations@.skip(0) =~= prevR.allocations@);
                assert(weight_sum(round.transfers@, transfer_weight()) == dropped_votes(
                    prevR.allocations@,
                    round.allocations@,
                ));
                // Pile monotonicity for the new pair of rounds.
                assert(round.undervote >= prevR.undervote && round.overvote >= prevR.overvote);
                // The elimination-set clause for the new pair, in terms of
                // the previous round's candidate lines.
                assert(cand_lines(prevR.allocations@) == svp);
                assert forall|k: int|
                    0 <= k < cand_lines(prevR.allocations@).len() implies (#[trigger] appears_in(
                    round.allocations@,
                    cand_lines(prevR.allocations@)[k].0,
                ) <==> k < TabulatorState::spec_elim_start(cand_lines(prevR.allocations@))) by {
                    assert(appears_in(round.allocations@, svp[k].0) <==> k < es);
                }
                // A continued transition eliminated at least one nonempty
                // pile, so the new round carries at least one transfer.
                assert(round.transfers@.len() >= 1) by {
                    TabulatorState::lemma_elim_start_bounds(svp);
                    assert(svp.len() > 0);
                    assert((es as int) < svp.len());
                    assert(prevR.allocations@[es as int].votes >= 1);
                    assert(cand_lines(prevR.allocations@)[es as int].1
                        == prevR.allocations@[es as int].votes);
                    assert(svp[es as int].1 >= 1);
                    lemma_weight_sum_suffix_step(svp, vote_weight(), es as int);
                    assert(forall|q: int|
                        0 <= q < svp.skip(es as int + 1).len() ==> vote_weight()(
                            #[trigger] svp.skip(es as int + 1)[q],
                        ) >= 0);
                    lemma_weight_sum_nonneg(svp.skip(es as int + 1), vote_weight());
                    assert(weight_sum(svp.skip(es as int), vote_weight()) >= 1);
                    assert(weight_sum(round.transfers@, transfer_weight()) >= 1);
                    if round.transfers@.len() == 0 {
                        assert(weight_sum(round.transfers@, transfer_weight()) == 0);
                    }
                }
                // Every transfer of the new round names an eliminated line.
                assert forall|j: int|
                    0 <= j < round.transfers@.len() implies from_in_suffix(
                    cand_lines(rounds@[round_number - 1].allocations@),
                    TabulatorState::spec_elim_start(
                        cand_lines(rounds@[round_number - 1].allocations@),
                    ),
                    (#[trigger] round.transfers@[j]).from,
                ) by {
                    assert(round.transfers@ == state.transfers@);
                    assert(from_in_suffix(svp, es, state.transfers@[j].from));
                }
            }
        }
        if n_alloc <= 3 || round_number >= 1000 {
            done = true;
            proof {
                assert(rounds@[rounds@.len() - 1] == round);
            }
        } else {
            let ghost state_pre = state;
            state = state.do_elimination(tabulation_options, round_number);
            proof {
                prev = state_pre;
                assert(cand_lines(round.allocations@) == prev.sorted_votes());
                assert(votes_sorted(prev.sorted_votes()));
                assert(prev.sorted_votes().to_multiset() == prev.cand_votes().to_multiset());
                assert(round.allocations@.len() > 3);
                assert(round.undervote as int <= state.undervote_ballots@.len());
                assert(round.overvote as int <= state.overvote_ballots@.len());
                assert(forall|j: int|
                    0 <= j < state.transfers@.len() ==> from_in_suffix(
                        prev.sorted_votes(),
                        TabulatorState::spec_elim_start(prev.sorted_votes()),
                        (#[trigger] state.transfers@[j]).from,
                    ));
            }
            round_number = round_number + 1;
        }
    }
    proof {
        assert(rounds@.len() >= 1);
    }
    rounds
}

} // verus!
