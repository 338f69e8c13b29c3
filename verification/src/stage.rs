use crate::db::{RwTx, Tables};
use crate::stage_id::StageId;
use vstd::prelude::*;

verus! {

/// What a stage hands back from forward work: either new progress, with
/// `done` saying whether it caught up with the previous stage, or a request
/// to rewind the pipeline to `unwind_to`.
#[derive(Clone, Copy, Debug, PartialEq, Eq, Structural)]
pub enum ExecOutput {
    Progress { stage_progress: u64, done: bool },
    Unwind { unwind_to: u64 },
}

/// What the pipeline hands a stage for forward work: the previous stage's
/// identity and progress (absent for the first stage), the stage's own
/// recorded progress (absent before its first run), and whether this call
/// repeats one that returned unfinished work.
#[derive(Clone, Copy, Debug)]
pub struct StageInput {
    pub restarted: bool,
    pub previous_stage: Option<(StageId, u64)>,
    pub stage_progress: Option<u64>,
}

impl StageInput {
    /// The stage's recorded progress, with genesis standing in before the
    /// first run.
    pub open spec fn progress_or_genesis(&self) -> u64 {
        match self.stage_progress {
            Some(p) => p,
            None => 0,
        }
    }
}

/// What the pipeline hands a stage during the unwind phase.
#[derive(Clone, Copy, Debug, PartialEq, Eq, Structural)]
pub struct UnwindInput {
    pub unwind_to: u64,
    pub stage_progress: u64,
}

/// The progress a stage reports after unwinding.
#[derive(Clone, Copy, Debug, PartialEq, Eq, Structural)]
pub struct UnwindOutput {
    pub stage_progress: u64,
}

/// What the pipeline hands a stage during the prune phase: drop data
/// strictly below `prune_to`.
#[derive(Clone, Copy, Debug, PartialEq, Eq, Structural)]
pub struct PruningInput {
    pub prune_to: u64,
}

/// The fatal faults a stage or the pipeline can surface. Inconsistencies
/// that an unwind repairs are not errors: they travel as
/// `ExecOutput::Unwind`.
#[derive(Clone, Copy, Debug, PartialEq, Eq, Structural)]
pub enum StageError {
    /// The sources disagree at genesis; there is nothing left to unwind to.
    UnwindPastGenesis,
    /// A canonical entry has no header row in the foreign store.
    MissingHeader { block: u64 },
    /// A canonical entry has no total-difficulty row in the foreign store.
    MissingTotalDifficulty { block: u64 },
    /// The stored header under a canonical entry carries the wrong hash.
    HeaderHashMismatch { block: u64 },
    /// The block at the stage's own progress has no stored body.
    MissingBody { block: u64 },
    /// A body's transaction stride reaches past the foreign transaction
    /// table.
    ShortTransactionRead { block: u64 },
    /// Assigning the next local transaction id would overflow.
    TxIdOverflow,
    /// A stage reported progress below its previous record.
    NonMonotonicProgress { stage: StageId },
    /// A foreign store table is not in ascending key order.
    CorruptSource,
    /// The local body and transaction tables do not cover each other.
    CorruptStore,
}

impl StageError {
    /// The diagnostic line for this fault.
    pub fn message(&self) -> (r: &'static str)
        ensures
            r@ == self.message_spec(),
    {
        proof {
            reveal_strlit(
                "attempted to unwind past genesis block; are the two stores on the same chain?",
            );
            reveal_strlit("canonical entry has no header row in the foreign store");
            reveal_strlit("canonical entry has no total-difficulty row in the foreign store");
            reveal_strlit("stored header hash disagrees with the canonical hash");
            reveal_strlit("no stored body at the stage progress");
            reveal_strlit("transaction stride reaches past the foreign transaction table");
            reveal_strlit("local transaction id space exhausted");
            reveal_strlit("stage reported progress below its previous record");
            reveal_strlit("foreign store tables are not in ascending key order");
            reveal_strlit("local body and transaction tables do not cover each other");
        }
        match self {
            StageError::UnwindPastGenesis => {
                "attempted to unwind past genesis block; are the two stores on the same chain?"
            },
            StageError::MissingHeader { .. } => {
                "canonical entry has no header row in the foreign store"
            },
            StageError::MissingTotalDifficulty { .. } => {
                "canonical entry has no total-difficulty row in the foreign store"
            },
            StageError::HeaderHashMismatch { .. } => {
                "stored header hash disagrees with the canonical hash"
            },
            StageError::MissingBody { .. } => "no stored body at the stage progress",
            StageError::ShortTransactionRead { .. } => {
                "transaction stride reaches past the foreign transaction table"
            },
            StageError::TxIdOverflow => "local transaction id space exhausted",
            StageError::NonMonotonicProgress { .. } => {
                "stage reported progress below its previous record"
            },
            StageError::CorruptSource => "foreign store tables are not in ascending key order",
            StageError::CorruptStore => {
                "local body and transaction tables do not cover each other"
            },
        }
    }

    /// What `message` returns, as a sequence of characters.
    pub open spec fn message_spec(&self) -> Seq<char> {
        match self {
            StageError::UnwindPastGenesis => {
                "attempted to unwind past genesis block; are the two stores on the same chain?"@
            },
            StageError::MissingHeader { .. } => {
                "canonical entry has no header row in the foreign store"@
            },
            StageError::MissingTotalDifficulty { .. } => {
                "canonical entry has no total-difficulty row in the foreign store"@
            },
            StageError::HeaderHashMismatch { .. } => {
                "stored header hash disagrees with the canonical hash"@
            },
            StageError::MissingBody { .. } => "no stored body at the stage progress"@,
            StageError::ShortTransactionRead { .. } => {
                "transaction stride reaches past the foreign transaction table"@
            },
            StageError::TxIdOverflow => "local transaction id space exhausted"@,
            StageError::NonMonotonicProgress { .. } => {
                "stage reported progress below its previous record"@
            },
            StageError::CorruptSource => "foreign store tables are not in ascending key order"@,
            StageError::CorruptStore => {
                "local body and transaction tables do not cover each other"@
            },
        }
    }
}

/// The contract every sync stage implements. `execute` does forward work
/// against the open transaction and either advances progress or requests an
/// unwind below its current progress; `unwind` removes the stage's effects
/// above `unwind_to`; `prune` drops the stage's data strictly below
/// `prune_to`. A stage never commits: the pipeline owns the transaction.
pub trait Stage {
    /// The stage's fixed identifier, as specification.
    spec fn spec_id(&self) -> StageId;

    /// What the stage's `execute` does, validation included: each
    /// implementer states which store defects it refuses with which error,
    /// and what a successful call leaves in the tables.
    spec fn execute_spec(
        &self,
        t0: Tables,
        t1: Tables,
        input: StageInput,
        r: Result<ExecOutput, StageError>,
    ) -> bool;

    /// Stable identifier; unique within a pipeline.
    fn id(&self) -> (r: StageId)
        ensures
            r == self.spec_id(),
    ;

    fn execute(&self, tx: &mut RwTx, input: StageInput) -> (r: Result<ExecOutput, StageError>)
        requires
            old(tx).tables.wf(),
        ensures
            final(tx).tables.wf(),
            self.execute_spec(old(tx).tables, final(tx).tables, input, r),
            r matches Ok(ExecOutput::Progress { stage_progress, done }) ==> stage_progress
                >= input.progress_or_genesis(),
            r matches Ok(ExecOutput::Unwind { unwind_to }) ==> (input.stage_progress matches Some(
                p,
            ) && unwind_to < p),
    ;

    fn unwind(&self, tx: &mut RwTx, input: UnwindInput) -> (r: Result<UnwindOutput, StageError>)
        requires
            old(tx).tables.wf(),
        ensures
            final(tx).tables.wf(),
            r matches Ok(o) ==> o.stage_progress == input.unwind_to,
    ;

    fn prune(&self, tx: &mut RwTx, input: PruningInput) -> (r: Result<(), StageError>)
        requires
            old(tx).tables.wf(),
        ensures
            final(tx).tables.wf(),
    ;
}

} // verus!
