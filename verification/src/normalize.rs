//! The normalizer: lowers raw ballots to normalized ballots, applying the
//! jurisdiction's ballot depth, overvote policy, and skipped-rank policy.

use vstd::prelude::*;

use crate::model::{choices_in_range, Ballot, Choice, Election, NormalizedBallot};

verus! {

/// What an overvoted rank does to the rest of the ballot.
#[derive(Clone, Copy, PartialEq, Eq, Structural, Debug)]
pub enum OvervotePolicy {
    /// The overvote exhausts the ballot (ranks after it are dropped).
    Exhaust,
    /// The overvoted rank is skipped.
    SkipRank,
}

/// What skipped (undervoted) ranks do to the rest of the ballot.
#[derive(Clone, Copy, PartialEq, Eq, Structural, Debug)]
pub enum SkippedRankPolicy {
    /// Skipped ranks are kept as they are.
    Keep,
    /// Skipped ranks are dropped.
    SkipRank,
    /// Two consecutive skipped ranks exhaust the ballot.
    ExhaustOnTwo,
}

/// Options steering one contest's normalization.
#[derive(Clone, Copy, PartialEq, Eq, Structural, Debug)]
pub struct NormalizerOptions {
    /// Ranks beyond this depth are discarded.
    pub ballot_depth: Option<u32>,
    pub overvote: OvervotePolicy,
    pub skipped_ranks: SkippedRankPolicy,
}

/// Ranks beyond the jurisdiction's ballot depth are discarded.
pub open spec fn apply_depth(choices: Seq<Choice>, depth: Option<u32>) -> Seq<Choice> {
    match depth {
        Some(d) => if choices.len() <= d {
            choices
        } else {
            choices.take(d as int)
        },
        None => choices,
    }
}

/// The overvote policy: cut after the first overvote, or drop overvotes.
pub open spec fn apply_overvote(choices: Seq<Choice>, policy: OvervotePolicy) -> Seq<Choice>
    decreases choices.len(),
{
    if choices.len() == 0 {
        choices
    } else {
        match policy {
            OvervotePolicy::Exhaust => {
                if choices[0] == Choice::Overvote {
                    seq![Choice::Overvote]
                } else {
                    seq![choices[0]] + apply_overvote(choices.drop_first(), policy)
                }
            },
            OvervotePolicy::SkipRank => {
                if choices[0] == Choice::Overvote {
                    apply_overvote(choices.drop_first(), policy)
                } else {
                    seq![choices[0]] + apply_overvote(choices.drop_first(), policy)
                }
            },
        }
    }
}

/// The skipped-rank policy: keep, drop, or exhaust on two consecutive
/// undervotes.
pub open spec fn apply_skipped(choices: Seq<Choice>, policy: SkippedRankPolicy) -> Seq<Choice>
    decreases choices.len(),
{
    match policy {
        SkippedRankPolicy::Keep => choices,
        SkippedRankPolicy::SkipRank => {
            if choices.len() == 0 {
                choices
            } else if choices[0] == Choice::Undervote {
                apply_skipped(choices.drop_first(), policy)
            } else {
                seq![choices[0]] + apply_skipped(choices.drop_first(), policy)
            }
        },
        SkippedRankPolicy::ExhaustOnTwo => {
            if choices.len() == 0 {
                choices
            } else if choices.len() >= 2 && choices[0] == Choice::Undervote && choices[1]
                == Choice::Undervote {
                Seq::empty()
            } else {
                seq![choices[0]] + apply_skipped(choices.drop_first(), policy)
            }
        },
    }
}

/// The full normalization of one choice list.
pub open spec fn spec_normalize(choices: Seq<Choice>, options: NormalizerOptions) -> Seq<Choice> {
    apply_skipped(
        apply_overvote(apply_depth(choices, options.ballot_depth), options.overvote),
        options.skipped_ranks,
    )
}

fn truncate_exec(choices: Vec<Choice>, depth: Option<u32>) -> (r: Vec<Choice>)
    ensures
        r@ == apply_depth(choices@, depth),
{
    match depth {
        Some(d) => {
            if choices.len() <= d as usize {
                choices
            } else {
                let mut out = choices;
                out.truncate(d as usize);
                out
            }
        },
        None => choices,
    }
}

#[verifier::loop_isolation(false)]
fn overvote_exec(choices: &Vec<Choice>, policy: OvervotePolicy) -> (r: Vec<Choice>)
    ensures
        r@ == apply_overvote(choices@, policy),
{
    let mut out: Vec<Choice> = Vec::new();
    let mut i: usize = 0;
    let ghost full = choices@;
    proof {
        assert(full.skip(0) =~= full);
    }
    while i < choices.len()
        invariant
            i <= full.len(),
            apply_overvote(full, policy) == out@ + apply_overvote(full.skip(i as int), policy),
        decreases full.len() - i,
    {
        proof {
            assert(full.skip(i as int).len() > 0);
            assert(full.skip(i as int)[0] == full[i as int]);
            assert(full.skip(i as int).drop_first() =~= full.skip(i as int + 1));
        }
        let c = choices[i];
        let is_over = match c {
            Choice::Overvote => true,
            _ => false,
        };
        if is_over {
            match policy {
                OvervotePolicy::Exhaust => {
                    out.push(Choice::Overvote);
                    proof {
                        assert(apply_overvote(full.skip(i as int), policy) =~= seq![
                            Choice::Overvote,
                        ]);
                        assert(apply_overvote(full, policy) =~= out@);
                    }
                    return out;
                },
                OvervotePolicy::SkipRank => {
                    proof {
                        assert(apply_overvote(full.skip(i as int), policy) == apply_overvote(
                            full.skip(i as int + 1),
                            policy,
                        ));
                    }
                },
            }
        } else {
            out.push(c);
            proof {
                assert(apply_overvote(full.skip(i as int), policy) =~= seq![full[i as int]]
                    + apply_overvote(full.skip(i as int + 1), policy));
                assert(apply_overvote(full, policy) =~= out@ + apply_overvote(
                    full.skip(i as int + 1),
                    policy,
                ));
            }
        }
        i = i + 1;
    }
    proof {
        assert(full.skip(i as int).len() == 0);
        assert(apply_overvote(full.skip(i as int), policy) =~= Seq::<Choice>::empty());
        assert(apply_overvote(full, policy) =~= out@);
    }
    out
}

#[verifier::loop_isolation(false)]
fn skipped_exec(choices: &Vec<Choice>, policy: SkippedRankPolicy) -> (r: Vec<Choice>)
    ensures
        r@ == apply_skipped(choices@, policy),
{
    let mut out: Vec<Choice> = Vec::new();
    let mut i: usize = 0;
    let ghost full = choices@;
    proof {
        assert(full.skip(0) =~= full);
    }
    while i < choices.len()
        invariant
            i <= full.len(),
            apply_skipped(full, policy) == out@ + apply_skipped(full.skip(i as int), policy),
        decreases full.len() - i,
    {
        proof {
            assert(full.skip(i as int).len() > 0);
            assert(full.skip(i as int)[0] == full[i as int]);
            assert(full.skip(i as int).drop_first() =~= full.skip(i as int + 1));
        }
        let c = choices[i];
        let is_under = match c {
            Choice::Undervote => true,
            _ => false,
        };
        match policy {
            SkippedRankPolicy::Keep => {
                out.push(c);
                proof {
                    assert(apply_skipped(full.skip(i as int), policy) == full.skip(i as int));
                    assert(apply_skipped(full.skip(i as int + 1), policy) == full.skip(
                        i as int + 1,
                    ));
                    assert(apply_skipped(full, policy) =~= out@ + apply_skipped(
                        full.skip(i as int + 1),
                        policy,
                    ));
                }
            },
            SkippedRankPolicy::SkipRank => {
                if is_under {
                    proof {
                        assert(apply_skipped(full.skip(i as int), policy) == apply_skipped(
                            full.skip(i as int + 1),
                            policy,
                        ));
                    }
                } else {
                    out.push(c);
                    proof {
                        assert(apply_skipped(full.skip(i as int), policy) =~= seq![full[i as int]]
                            + apply_skipped(full.skip(i as int + 1), policy));
                        assert(apply_skipped(full, policy) =~= out@ + apply_skipped(
                            full.skip(i as int + 1),
                            policy,
                        ));
                    }
                }
            },
            SkippedRankPolicy::ExhaustOnTwo => {
                let two_under = is_under && i + 1 < choices.len() && (match choices[i + 1] {
                    Choice::Undervote => true,
                    _ => false,
                });
                if two_under {
                    proof {
                        assert(full.skip(i as int)[1] == full[i as int + 1]);
                        assert(apply_skipped(full.skip(i as int), policy) =~= Seq::<
                            Choice,
                        >::empty());
                        assert(apply_skipped(full, policy) =~= out@);
                    }
                    return out;
                } else {
                    out.push(c);
                    proof {
                        if full.skip(i as int).len() >= 2 {
                            assert(full.skip(i as int)[1] == full[i as int + 1]);
                        }
                        assert(apply_skipped(full.skip(i as int), policy) =~= seq![full[i as int]]
                            + apply_skipped(full.skip(i as int + 1), policy));
                        assert(apply_skipped(full, policy) =~= out@ + apply_skipped(
                            full.skip(i as int + 1),
                            policy,
                        ));
                    }
                }
            },
        }
        i = i + 1;
    }
    proof {
        assert(full.skip(i as int).len() == 0);
        assert(apply_skipped(full.skip(i as int), policy) =~= Seq::<Choice>::empty());
        assert(apply_skipped(full, policy) =~= out@);
    }
    out
}

/// Normalizes one raw ballot.
pub fn normalize_ballot(ballot: Ballot, options: &NormalizerOptions) -> (r: NormalizedBallot)
    ensures
        r.id == ballot.id,
        r.choices@ == spec_normalize(ballot.choices@, *options),
{
    let truncated = truncate_exec(ballot.choices, options.ballot_depth);
    let after_over = overvote_exec(&truncated, options.overvote);
    let after_skip = skipped_exec(&after_over, options.skipped_ranks);
    NormalizedBallot { id: ballot.id, choices: after_skip }
}

/// Normalizes a whole raw election's ballots, in order.
#[verifier::loop_isolation(false)]
pub fn normalize_election(election: Election, options: &NormalizerOptions) -> (r: Vec<
    NormalizedBallot,
>)
    ensures
        r@.len() == election.ballots@.len(),
        forall|i: int|
            0 <= i < r@.len() ==> (#[trigger] r@[i]).id == election.ballots@[i].id
                && r@[i].choices@ == spec_normalize(election.ballots@[i].choices@, *options),
        election.well_formed() ==> forall|i: int|
            0 <= i < r@.len() ==> choices_in_range(
                (#[trigger] r@[i]).choices@,
                election.candidates@.len() as int,
            ),
{
    let ghost orig = election.ballots@;
    let mut ballots = election.ballots;
    let total = ballots.len();
    proof {
        assert(total == orig.len());
        assert(orig.len() <= usize::MAX);
    }
    let mut out: Vec<NormalizedBallot> = Vec::new();
    let mut i: usize = 0;
    while ballots.len() > 0
        invariant
            orig.len() <= usize::MAX,
            i <= orig.len(),
            ballots@ == orig.skip(i as int),
            out@.len() == i,
            forall|k: int|
                0 <= k < i ==> (#[trigger] out@[k]).id == orig[k].id && out@[k].choices@
                    == spec_normalize(orig[k].choices@, *options),
        decreases ballots@.len(),
    {
        proof {
            assert(orig.skip(i as int).len() == orig.len() - i);
            assert(i < orig.len());
        }
        let b = ballots.remove(0);
        proof {
            assert(b == orig[i as int]);
            assert(ballots@ =~= orig.skip(i as int + 1));
        }
        out.push(normalize_ballot(b, options));
        i = i + 1;
    }
    proof {
        if election.well_formed() {
            assert forall|i: int| 0 <= i < out@.len() implies choices_in_range(
                (#[trigger] out@[i]).choices@,
                election.candidates@.len() as int,
            ) by {
                assert(choices_in_range(orig[i].choices@, election.candidates@.len() as int));
                lemma_normalize_in_range(
                    orig[i].choices@,
                    *options,
                    election.candidates@.len() as int,
                );
            }
        }
    }
    out
}

/// Normalization never invents candidate references: every vote of the
/// normalized ballot already stood on the raw ballot.
pub proof fn lemma_normalize_in_range(choices: Seq<Choice>, options: NormalizerOptions, n: int)
    requires
        choices_in_range(choices, n),
    ensures
        choices_in_range(spec_normalize(choices, options), n),
{
    let t = apply_depth(choices, options.ballot_depth);
    assert(choices_in_range(t, n)) by {
        assert(forall|i: int| 0 <= i < t.len() ==> #[trigger] t[i] == choices[i]);
    }
    lemma_overvote_in_range(t, options.overvote, n);
    lemma_skipped_in_range(apply_overvote(t, options.overvote), options.skipped_ranks, n);
}

proof fn lemma_overvote_in_range(choices: Seq<Choice>, policy: OvervotePolicy, n: int)
    requires
        choices_in_range(choices, n),
    ensures
        choices_in_range(apply_overvote(choices, policy), n),
    decreases choices.len(),
{
    if choices.len() > 0 {
        assert(choices_in_range(choices.drop_first(), n)) by {
            assert(forall|i: int|
                0 <= i < choices.drop_first().len() ==> #[trigger] choices.drop_first()[i]
                    == choices[i + 1]);
        }
        lemma_overvote_in_range(choices.drop_first(), policy, n);
        let r = apply_overvote(choices, policy);
        assert forall|i: int| 0 <= i < r.len() implies match #[trigger] r[i] {
            Choice::Vote(c) => c.0 < n,
            _ => true,
        } by {
            if choices[0] == Choice::Overvote && policy == OvervotePolicy::Exhaust {
            } else if choices[0] == Choice::Overvote {
            } else {
                if i > 0 {
                    assert(r[i] == apply_overvote(choices.drop_first(), policy)[i - 1]);
                } else {
                    assert(r[0] == choices[0]);
                }
            }
        }
    }
}

proof fn lemma_skipped_in_range(choices: Seq<Choice>, policy: SkippedRankPolicy, n: int)
    requires
        choices_in_range(choices, n),
    ensures
        choices_in_range(apply_skipped(choices, policy), n),
    decreases choices.len(),
{
    if policy == SkippedRankPolicy::Keep {
    } else if choices.len() > 0 {
        assert(choices_in_range(choices.drop_first(), n)) by {
            assert(forall|i: int|
                0 <= i < choices.drop_first().len() ==> #[trigger] choices.drop_first()[i]
                    == choices[i + 1]);
        }
        lemma_skipped_in_range(choices.drop_first(), policy, n);
        let r = apply_skipped(choices, policy);
        assert forall|i: int| 0 <= i < r.len() implies match #[trigger] r[i] {
            Choice::Vote(c) => c.0 < n,
            _ => true,
        } by {
            if r.len() > 0 {
                if i > 0 {
                    if r[i] == apply_skipped(choices.drop_first(), policy)[i - 1] {
                    }
                } else {
                    if r[0] == choices[0] {
                    }
                }
            }
        }
    }
}

} // verus!
