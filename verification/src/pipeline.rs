//! The pure decisions of the pipeline orchestrator: cache reuse, the
//! deprecated-flag translation, and batch-dispatch eligibility.

use vstd::prelude::*;

use crate::metadata::{spec_param, Params};

verus! {

/// What to do for one contest, given which artifacts exist and the cache
/// flags.
#[derive(Clone, Copy, PartialEq, Eq, Structural, Debug)]
pub enum CachePlan {
    /// Load the finished report; skip preprocessing and tabulation.
    ReuseReport,
    /// Load the preprocessed ballots; skip parsing and normalization.
    ReusePreprocessed,
    /// Read and normalize the raw data, then tabulate.
    Preprocess,
}

/// The per-contest cache decision: a report is reused only when both
/// artifacts exist and neither stage is forced; otherwise the preprocessed
/// artifact is reused when it exists and preprocessing is not forced.
pub open spec fn spec_cache_plan(
    report_exists: bool,
    preprocessed_exists: bool,
    force_preprocess: bool,
    force_report: bool,
) -> CachePlan {
    if report_exists && preprocessed_exists && !force_report && !force_preprocess {
        CachePlan::ReuseReport
    } else if preprocessed_exists && !force_preprocess {
        CachePlan::ReusePreprocessed
    } else {
        CachePlan::Preprocess
    }
}

pub fn cache_plan(
    report_exists: bool,
    preprocessed_exists: bool,
    force_preprocess: bool,
    force_report: bool,
) -> (r: CachePlan)
    ensures
        r == spec_cache_plan(report_exists, preprocessed_exists, force_preprocess, force_report),
{
    if report_exists && preprocessed_exists && !force_report && !force_preprocess {
        CachePlan::ReuseReport
    } else if preprocessed_exists && !force_preprocess {
        CachePlan::ReusePreprocessed
    } else {
        CachePlan::Preprocess
    }
}

/// Translates the cache flags (and their deprecated force-style aliases)
/// into the two effective force flags: forcing a stage wins over its cache
/// flag, and regenerating reports also regenerates preprocessing.
pub fn effective_force_flags(
    use_cache_preprocess: bool,
    use_cache_report: bool,
    force_preprocess: bool,
    force_report: bool,
) -> (r: (bool, bool))
    ensures
        ({
            let ucp = !force_preprocess && use_cache_preprocess;
            let ucr = !force_report && use_cache_report;
            r.0 == (!ucp || !ucr) && r.1 == !ucr
        }),
{
    let use_cache_preprocess = if force_preprocess {
        false
    } else {
        use_cache_preprocess
    };
    let use_cache_report = if force_report {
        false
    } else {
        use_cache_report
    };
    (!use_cache_preprocess || !use_cache_report, !use_cache_report)
}

/// Whether two optional parameter values agree.
fn opt_param_eq(a: Option<&String>, b: Option<&String>) -> (r: bool)
    ensures
        r == (match (a, b) {
            (Some(x), Some(y)) => x@ == y@,
            (None, None) => true,
            _ => false,
        }),
{
    match (a, b) {
        (Some(x), Some(y)) => *x == *y,
        (None, None) => true,
        _ => false,
    }
}

/// Whether every contest of an election shares the first contest's value
/// for `key` (the batch-dispatch eligibility test).
#[verifier::loop_isolation(false)]
pub fn contests_share_param(contests: &Vec<(String, Params)>, key: &String) -> (r: bool)
    requires
        contests@.len() > 0,
    ensures
        r == forall|i: int|
            0 <= i < contests@.len() ==> spec_param((#[trigger] contests@[i]).1.entries@, key@)
                == spec_param(contests@[0].1.entries@, key@),
{
    let first = contests[0].1.get(key);
    let mut i: usize = 1;
    while i < contests.len()
        invariant
            1 <= i <= contests@.len(),
            match first {
                Some(v) => Some(v@) == spec_param(contests@[0].1.entries@, key@),
                None => spec_param(contests@[0].1.entries@, key@) is None,
            },
            forall|k: int|
                0 <= k < i ==> spec_param((#[trigger] contests@[k]).1.entries@, key@) == spec_param(
                    contests@[0].1.entries@,
                    key@,
                ),
        decreases contests@.len() - i,
    {
        let current = contests[i].1.get(key);
        if !opt_param_eq(current, first) {
            proof {
                assert(spec_param(contests@[i as int].1.entries@, key@) != spec_param(
                    contests@[0].1.entries@,
                    key@,
                ));
            }
            return false;
        }
        i = i + 1;
    }
    true
}

} // verus!
