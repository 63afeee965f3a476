//! Run orchestration decisions: the artifact path convention, the cache
//! policy (an existing artifact is never rebuilt), and the recording policy
//! (a failed or sample-less execution leaves no result behind).
//!
//! The caller drives the (revisions x workloads) matrix and performs the
//! outside work - checking the file system, invoking the build driver,
//! launching benchmark subprocesses - and feeds what came back to these
//! functions, which make every decision.

use vstd::prelude::*;

verus! {

use crate::parse::{samples_of, parse_samples};
use crate::stats::BenchmarkResult;

/// Where the artifact of a revision lives: a fixed build-output directory,
/// with one file per revision named after it.
pub open spec fn artifact_path_spec(commit: Seq<char>) -> Seq<char> {
    "nova-builds/nova-"@ + commit
}

/// The deterministic path of the built artifact for a revision.
pub fn artifact_path_for(commit: &str) -> (r: String)
    ensures
        r@ == artifact_path_spec(commit@),
{
    let mut p = String::new();
    p.push_str("nova-builds/nova-");
    p.push_str(commit);
    proof {
        assert(Seq::<char>::empty() + "nova-builds/nova-"@ + commit@ =~= artifact_path_spec(
            commit@,
        ));
    }
    p
}

/// What to do for one revision before benchmarking it.
#[derive(Debug, Clone, Copy, PartialEq, Eq, Structural)]
pub enum CacheDecision {
    /// The artifact is already on disk: use it, skip the Build Driver.
    UseCached,
    /// No artifact yet: the Build Driver must produce one.
    RunBuild,
}

/// The artifact cache policy: a revision whose artifact already exists is
/// never handed to the Build Driver.
pub fn resolve_artifact(artifact_exists: bool) -> (d: CacheDecision)
    ensures
        artifact_exists ==> d == CacheDecision::UseCached,
        !artifact_exists ==> d == CacheDecision::RunBuild,
{
    if artifact_exists {
        CacheDecision::UseCached
    } else {
        CacheDecision::RunBuild
    }
}

/// Applies the failure policy to one finished benchmark execution and
/// records its result: a result is recorded exactly when the subprocess
/// exited cleanly and its output held at least one sample; a non-zero exit
/// or a sample-less output records nothing, and the run goes on.
pub fn record_execution(
    results: &mut Vec<BenchmarkResult>,
    commit: &str,
    benchmark: &str,
    exit_ok: bool,
    output: &[u8],
)
    ensures
        exit_ok && samples_of(output@).len() > 0 ==> {
            &&& final(results)@.len() == old(results)@.len() + 1
            &&& final(results)@.drop_last() == old(results)@
            &&& final(results)@.last().commit@ == commit@
            &&& final(results)@.last().benchmark@ == benchmark@
            &&& final(results)@.last().times@ == samples_of(output@)
        },
        !(exit_ok && samples_of(output@).len() > 0) ==> final(results)@ == old(results)@,
{
    if !exit_ok {
        return;
    }
    let times = parse_samples(output);
    if times.len() == 0 {
        return;
    }
    let entry = BenchmarkResult {
        benchmark: benchmark.to_owned(),
        commit: commit.to_owned(),
        times,
    };
    results.push(entry);
    proof {
        assert(results@.drop_last() =~= old(results)@);
    }
}

} // verus!
