//! The checkpoint bracket: every unit of work that edits the working tree
//! is preceded and followed by a saved source-control checkpoint, so the
//! edits can be reverted later.

use vstd::prelude::*;

verus! {

/// One step of a checkpointed unit of work.
#[derive(Clone, Copy, PartialEq, Eq, Structural, Debug)]
pub enum CheckpointStep {
    /// Commit a checkpoint of the working tree.
    SaveCheckpoint,
    /// Run the unit of work itself.
    RunWork,
}

/// The plan for one checkpointed unit of work: save, run, save. The
/// surrounding process interprets the steps, committing a source-control
/// checkpoint for each save.
pub fn with_save_checkpoint() -> (r: Vec<CheckpointStep>)
    ensures
        r@ =~= seq![
            CheckpointStep::SaveCheckpoint,
            CheckpointStep::RunWork,
            CheckpointStep::SaveCheckpoint,
        ],
{
    let mut plan: Vec<CheckpointStep> = Vec::new();
    plan.push(CheckpointStep::SaveCheckpoint);
    plan.push(CheckpointStep::RunWork);
    plan.push(CheckpointStep::SaveCheckpoint);
    plan
}

} // verus!
