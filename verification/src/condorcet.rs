//! Pairwise (Condorcet) analysis: the head-to-head preference matrix and the
//! Condorcet winner, when one exists.

use vstd::prelude::*;

use crate::model::{CandidateId, Choice, NormalizedBallot};

verus! {

/// The first rank at which a ballot votes for `c`, if any.
pub open spec fn first_rank(choices: Seq<Choice>, c: CandidateId) -> Option<int>
    decreases choices.len(),
{
    if choices.len() == 0 {
        None
    } else if choices[0] == Choice::Vote(c) {
        Some(0int)
    } else {
        match first_rank(choices.drop_first(), c) {
            Some(i) => Some(i + 1),
            None => None,
        }
    }
}

/// A ballot prefers `i` over `j` when it ranks `i` and either never ranks
/// `j` or ranks `j` strictly later; overvote ranks never count.
pub open spec fn prefers(choices: Seq<Choice>, i: CandidateId, j: CandidateId) -> bool {
    match first_rank(choices, i) {
        Some(ri) => match first_rank(choices, j) {
            Some(rj) => ri < rj,
            None => true,
        },
        None => false,
    }
}

/// How many of the ballots prefer `i` over `j`.
pub open spec fn pref_count(ballots: Seq<NormalizedBallot>, i: CandidateId, j: CandidateId) -> int
    decreases ballots.len(),
{
    if ballots.len() == 0 {
        0
    } else {
        pref_count(ballots.drop_last(), i, j) + (if prefers(ballots.last().choices@, i, j) {
            1int
        } else {
            0int
        })
    }
}

/// `i` beats every other candidate head to head.
pub open spec fn spec_condorcet_winner(m: Seq<Vec<u32>>, i: int) -> bool {
    forall|j: int| 0 <= j < m.len() && j != i ==> (#[trigger] m[i]@[j]) > m[j]@[i]
}

/// First rank of `c` on a ballot, decided by scanning.
fn first_rank_of(b: &NormalizedBallot, c: CandidateId) -> (r: Option<usize>)
    ensures
        match r {
            Some(k) => first_rank(b.choices@, c) == Some(k as int),
            None => first_rank(b.choices@, c) is None,
        },
{
    let ghost full = b.choices@;
    proof {
        assert(full.skip(0) =~= full);
    }
    let mut k: usize = 0;
    while k < b.choices.len()
        invariant
            k <= full.len(),
            full == b.choices@,
            first_rank(full, c) == match first_rank(full.skip(k as int), c) {
                Some(p) => Some(p + k as int),
                None => None::<int>,
            },
        decreases full.len() - k,
    {
        proof {
            assert(full.skip(k as int).len() > 0);
            assert(full.skip(k as int)[0] == full[k as int]);
            assert(full.skip(k as int).drop_first() =~= full.skip(k as int + 1));
        }
        let ch = b.choices[k];
        let hit = match ch {
            Choice::Vote(id) => id.0 == c.0,
            _ => false,
        };
        if hit {
            proof {
                assert(full[k as int] == Choice::Vote(c));
                assert(first_rank(full.skip(k as int), c) == Some(0int));
            }
            return Some(k);
        }
        proof {
            assert(full[k as int] != Choice::Vote(c));
            assert(first_rank(full.skip(k as int), c) == (
            match first_rank(full.skip(k as int + 1), c) {
                Some(p) => Some(p + 1),
                None => None::<int>,
            }));
        }
        k = k + 1;
    }
    proof {
        assert(full.skip(k as int).len() == 0);
    }
    None
}

/// Whether a ballot prefers candidate `i` over candidate `j`.
fn ballot_prefers(b: &NormalizedBallot, i: CandidateId, j: CandidateId) -> (r: bool)
    ensures
        r == prefers(b.choices@, i, j),
{
    let ri = first_rank_of(b, i);
    match ri {
        None => false,
        Some(ki) => {
            let rj = first_rank_of(b, j);
            match rj {
                None => true,
                Some(kj) => ki < kj,
            }
        },
    }
}

/// Builds the pairwise preference matrix: entry `(i, j)` counts the ballots
/// preferring candidate `i` over candidate `j`.
#[verifier::loop_isolation(false)]
pub fn pairwise_matrix(ballots: &Vec<NormalizedBallot>, n: usize) -> (m: Vec<Vec<u32>>)
    requires
        ballots@.len() <= u32::MAX,
    ensures
        m@.len() == n,
        forall|i: int| 0 <= i < n ==> (#[trigger] m@[i])@.len() == n,
        forall|i: int, j: int|
            0 <= i < n && 0 <= j < n ==> (#[trigger] m@[i]@[j]) as int == pref_count(
                ballots@,
                CandidateId(i as u32),
                CandidateId(j as u32),
            ),
{
    let mut m: Vec<Vec<u32>> = Vec::new();
    let mut i: usize = 0;
    while i < n
        invariant
            i <= n,
            m@.len() == i,
            forall|a: int| 0 <= a < i ==> (#[trigger] m@[a])@.len() == n,
            forall|a: int, b: int|
                0 <= a < i && 0 <= b < n ==> (#[trigger] m@[a]@[b]) as int == pref_count(
                    ballots@,
                    CandidateId(a as u32),
                    CandidateId(b as u32),
                ),
        decreases n - i,
    {
        let mut row: Vec<u32> = Vec::new();
        let mut j: usize = 0;
        while j < n
            invariant
                j <= n,
                row@.len() == j,
                forall|b: int|
                    0 <= b < j ==> (#[trigger] row@[b]) as int == pref_count(
                        ballots@,
                        CandidateId(i as u32),
                        CandidateId(b as u32),
                    ),
            decreases n - j,
        {
            let mut count: u32 = 0;
            let mut k: usize = 0;
            while k < ballots.len()
                invariant
                    k <= ballots@.len(),
                    count as int == pref_count(
                        ballots@.take(k as int),
                        CandidateId(i as u32),
                        CandidateId(j as u32),
                    ),
                    count as int <= k as int,
                decreases ballots@.len() - k,
            {
                proof {
                    assert(ballots@.take(k as int + 1).drop_last() =~= ballots@.take(k as int));
                    assert(ballots@.take(k as int + 1).last() == ballots@[k as int]);
                }
                if ballot_prefers(&ballots[k], CandidateId(i as u32), CandidateId(j as u32)) {
                    count = count + 1;
                }
                k = k + 1;
            }
            proof {
                assert(ballots@.take(ballots@.len() as int) =~= ballots@);
            }
            row.push(count);
            j = j + 1;
        }
        m.push(row);
        i = i + 1;
    }
    m
}

/// Finds the Condorcet winner of a pairwise matrix, if one exists: the
/// candidate who beats every other candidate head to head.
#[verifier::loop_isolation(false)]
pub fn condorcet_winner(m: &Vec<Vec<u32>>) -> (r: Option<CandidateId>)
    requires
        m@.len() <= u32::MAX,
        forall|i: int| 0 <= i < m@.len() ==> (#[trigger] m@[i])@.len() == m@.len(),
    ensures
        match r {
            Some(c) => (c.0 as int) < m@.len() && spec_condorcet_winner(m@, c.0 as int),
            None => forall|i: int|
                0 <= i < m@.len() ==> !#[trigger] spec_condorcet_winner(m@, i),
        },
{
    let ghost mm = m@;
    let n = m.len();
    let mut i: usize = 0;
    while i < n
        invariant
            i <= n,
            forall|a: int| 0 <= a < i ==> !#[trigger] spec_condorcet_winner(mm, a),
        decreases n - i,
    {
        let mut all_beaten = true;
        let mut j: usize = 0;
        while j < n
            invariant
                j <= n,
                all_beaten ==> forall|b: int|
                    0 <= b < j && b != i as int ==> (#[trigger] mm[i as int]@[b])
                        > mm[b]@[i as int],
                !all_beaten ==> !spec_condorcet_winner(mm, i as int),
            decreases n - j,
        {
            if j != i {
                if m[i][j] <= m[j][i] {
                    proof {
                        assert(mm[i as int][j as int] == m@[i as int]@[j as int]);
                        assert(!spec_condorcet_winner(mm, i as int));
                    }
                    all_beaten = false;
                }
            }
            j = j + 1;
        }
        if all_beaten {
            proof {
                assert(spec_condorcet_winner(mm, i as int));
            }
            return Some(CandidateId(i as u32));
        }
        i = i + 1;
    }
    None
}

} // verus!
