//! What came back from the workers, and whether the run may go on.

use crate::error::{FailureModel, FilterError};
use vstd::prelude::*;

verus! {

/// One finished worker: the script it ran, whether it ended with a success
/// status, and what it wrote to standard output and standard error.
#[derive(Debug, Clone, PartialEq, Eq)]
pub struct WorkerRun {
    pub script: String,
    pub success: bool,
    pub stdout: Vec<u8>,
    pub stderr: String,
}

/// The standard output of each run, in the order of the runs.
pub open spec fn outputs_of(runs: Seq<WorkerRun>) -> Seq<Seq<u8>> {
    runs.map_values(|run: WorkerRun| run.stdout@)
}

/// What a list of byte strings holds, string by string.
pub open spec fn contents(outputs: Seq<Vec<u8>>) -> Seq<Seq<u8>> {
    outputs.map_values(|output: Vec<u8>| output@)
}

/// Every run ended with a success status.
pub open spec fn all_succeeded(runs: Seq<WorkerRun>) -> bool {
    forall|i: int| 0 <= i < runs.len() ==> (#[trigger] runs[i]).success
}

/// The run at `at` failed and none before it did.
pub open spec fn is_first_failure(runs: Seq<WorkerRun>, at: int) -> bool {
    &&& 0 <= at < runs.len()
    &&& !runs[at].success
    &&& forall|i: int| 0 <= i < at ==> (#[trigger] runs[i]).success
}

/// The error that a failed run ends the whole run with.
pub open spec fn failure_of(run: WorkerRun) -> FailureModel {
    FailureModel::ProcessFailure { script: run.script@, stderr: run.stderr@ }
}

/// Looks at the status of one worker. Where it ended well, hands out what
/// it wrote to standard output. Where it did not, the error holds the script
/// and what the worker wrote to standard error.
pub fn check_run(run: WorkerRun) -> (result: Result<Vec<u8>, FilterError>)
    ensures
        result is Ok <==> run.success,
        result matches Ok(output) ==> output@ == run.stdout@,
        result matches Err(e) ==> e@ == failure_of(run),
{
    let WorkerRun { script, success, stdout, stderr } = run;
    if success {
        Ok(stdout)
    } else {
        Err(FilterError::ProcessFailure { script, stderr })
    }
}

/// Looks at the status of every worker, all of which have finished. Where
/// all ended well, hands out what each wrote to standard output, in order.
/// Where one did not, the whole run fails with the script and the standard
/// error of the first that failed, and no output is handed out, not even
/// that of the workers that ended well.
pub fn check_runs(runs: Vec<WorkerRun>) -> (result: Result<Vec<Vec<u8>>, FilterError>)
    ensures
        result is Ok <==> all_succeeded(runs@),
        result matches Ok(outputs) ==> contents(outputs@) == outputs_of(runs@),
        result matches Err(e) ==> exists|at: int|
            is_first_failure(runs@, at) && e@ == failure_of(#[trigger] runs@[at]),
{
    let ghost all = runs@;
    let mut outputs: Vec<Vec<u8>> = Vec::new();
    for run in walk: runs
        invariant
            walk.seq() == all,
            contents(outputs@) == outputs_of(all.take(walk.index())),
            forall|i: int| 0 <= i < walk.index() ==> (#[trigger] all[i]).success,
    {
        let ghost at = walk.index();
        let ghost before = contents(outputs@);
        match check_run(run) {
            Ok(output) => {
                outputs.push(output);
                assert(contents(outputs@) =~= before.push(all[at].stdout@));
            },
            Err(e) => {
                return Err(e);
            },
        }
    }
    Ok(outputs)
}

} // verus!
