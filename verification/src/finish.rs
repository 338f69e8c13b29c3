use crate::db::{tables_eqv, RwTx, Tables};
use crate::stage::{
    ExecOutput, PruningInput, Stage, StageError, StageInput, UnwindInput, UnwindOutput,
};
use crate::stage_id::StageId;
use vstd::prelude::*;

verus! {

/// The terminating stage: records that the pipeline has caught up by
/// adopting the previous stage's progress. It owns no tables, so unwinding
/// and pruning only adjust its progress record.
pub struct FinishStage;

impl FinishStage {
    pub fn new() -> (r: FinishStage) {
        FinishStage
    }

    /// Adopt the previous stage's progress; with no previous stage, stay at
    /// genesis.
    pub fn execute(&self, tx: &mut RwTx, input: StageInput) -> (r: Result<ExecOutput, StageError>)
        requires
            old(tx).tables.wf(),
        ensures
            final(tx).tables.wf(),
            tables_eqv(final(tx).tables, old(tx).tables),
            r == Ok::<ExecOutput, StageError>(
                ExecOutput::Progress {
                    stage_progress: match input.previous_stage {
                        Some((_, b)) => b,
                        None => 0,
                    },
                    done: true,
                },
            ),
    {
        let prev: u64 = match input.previous_stage {
            Some((_, b)) => b,
            None => 0,
        };
        Ok(ExecOutput::Progress { stage_progress: prev, done: true })
    }

    /// Nothing to remove: adopt the unwind target.
    pub fn unwind(&self, tx: &mut RwTx, input: UnwindInput) -> (r: Result<
        UnwindOutput,
        StageError,
    >)
        requires
            old(tx).tables.wf(),
        ensures
            final(tx).tables.wf(),
            tables_eqv(final(tx).tables, old(tx).tables),
            r == Ok::<UnwindOutput, StageError>(UnwindOutput { stage_progress: input.unwind_to }),
    {
        Ok(UnwindOutput { stage_progress: input.unwind_to })
    }

    /// Nothing to drop.
    pub fn prune(&self, tx: &mut RwTx, input: PruningInput) -> (r: Result<(), StageError>)
        requires
            old(tx).tables.wf(),
        ensures
            final(tx).tables.wf(),
            tables_eqv(final(tx).tables, old(tx).tables),
            r == Ok::<(), StageError>(()),
    {
        let _ = input;
        Ok(())
    }
}

impl Stage for FinishStage {
    open spec fn spec_id(&self) -> StageId {
        StageId::Finish
    }

    /// A previous stage behind this one is refused; otherwise the
    /// previous stage's progress is adopted and no table changes.
    open spec fn execute_spec(
        &self,
        t0: Tables,
        t1: Tables,
        input: StageInput,
        r: Result<ExecOutput, StageError>,
    ) -> bool {
        let prev: u64 = match input.previous_stage {
            Some((_, b)) => b,
            None => 0,
        };
        &&& tables_eqv(t1, t0)
        &&& if input.stage_progress matches Some(p) && prev < p {
            r == Err::<ExecOutput, StageError>(
                StageError::NonMonotonicProgress { stage: StageId::Finish },
            )
        } else {
            r == Ok::<ExecOutput, StageError>(
                ExecOutput::Progress { stage_progress: prev, done: true },
            )
        }
    }

    fn id(&self) -> (r: StageId) {
        StageId::Finish
    }

    fn execute(&self, tx: &mut RwTx, input: StageInput) -> (r: Result<ExecOutput, StageError>) {
        let prev: u64 = match input.previous_stage {
            Some((_, b)) => b,
            None => 0,
        };
        if match input.stage_progress {
            Some(p) => prev < p,
            None => false,
        } {
            // The trait promises progress never below the stage's own
            // record; a previous stage behind this one is a fault.
            return Err(StageError::NonMonotonicProgress { stage: StageId::Finish });
        }
        FinishStage::execute(self, tx, input)
    }

    fn unwind(&self, tx: &mut RwTx, input: UnwindInput) -> (r: Result<UnwindOutput, StageError>) {
        FinishStage::unwind(self, tx, input)
    }

    fn prune(&self, tx: &mut RwTx, input: PruningInput) -> (r: Result<(), StageError>) {
        FinishStage::prune(self, tx, input)
    }
}

} // verus!
