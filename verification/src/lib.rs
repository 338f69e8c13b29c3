//! Staged synchronization engine for an Ethereum execution-layer client.
//!
//! The crate models the staged-sync orchestrator: a totally ordered pipeline
//! of stages over a shared key-value store, the per-stage progress records,
//! the sliding window of header slices with its verification stage, and the
//! import stages that translate records from a foreign compatible database.

mod clock;
mod convert_bodies;
mod convert_headers;
mod db;
mod finish;
mod header_slices;
mod laws;
mod logger;
mod models;
mod pipeline;
mod progress;
mod stage;
mod stage_id;
mod table;
mod verify_slices_stage;

pub use convert_bodies::ConvertBodies;
pub use convert_headers::ConvertHeaders;
pub use db::{Db, RwTx, Tables};
pub use finish::FinishStage;
pub use header_slices::{HeaderSlice, HeaderSliceStatus, HeaderSlices, StatusCounts};
pub use laws::{
    lemma_bodies_idempotent, lemma_bodies_rerun_noop, lemma_bodies_unwind_then_forward,
    lemma_headers_idempotent, lemma_headers_rerun_noop, lemma_headers_unwind_then_forward,
};
pub use logger::StageLogger;
pub use models::{BlockHash, BlockNumber, BodyForStorage, Header, TransactionRecord};
pub use pipeline::{PassOutcome, Pipeline, PipelineStage};
pub use progress::ProgressTable;
pub use stage::{ExecOutput, PruningInput, Stage, StageError, StageInput, UnwindInput, UnwindOutput};
pub use stage_id::StageId;
pub use table::Table;
pub use verify_slices_stage::{verify_slice_headers, ChainSpec, VerifySlicesStage};
