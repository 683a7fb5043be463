//! What a run does with one configured branch.
use vstd::prelude::*;

verus! {

/// The course of one branch's synchronization.
#[derive(PartialEq, Eq, Structural, Clone, Copy, Debug)]
pub enum BranchRun {
    /// Make the bootstrap commit and save the cache.
    Bootstrap,
    /// The plan is empty: nothing to replay.
    UpToDate,
    /// Show the plan and ask before replaying it.
    Ask,
    /// Replay the plan without asking.
    Replay,
}

/// Decides how to go on with a branch: bootstrapping when asked to, else
/// replaying a plan of `steps` steps, after a confirmation unless `yes`.
pub fn branch_run(bootstrap: bool, yes: bool, steps: usize) -> (r: BranchRun)
    ensures
        bootstrap ==> r == BranchRun::Bootstrap,
        !bootstrap && steps == 0 ==> r == BranchRun::UpToDate,
        !bootstrap && steps > 0 && !yes ==> r == BranchRun::Ask,
        !bootstrap && steps > 0 && yes ==> r == BranchRun::Replay,
{
    if bootstrap {
        BranchRun::Bootstrap
    } else if steps == 0 {
        BranchRun::UpToDate
    } else if yes {
        BranchRun::Replay
    } else {
        BranchRun::Ask
    }
}

} // verus!
