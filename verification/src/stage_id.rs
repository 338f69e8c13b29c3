use vstd::prelude::*;

verus! {

/// Stable identifier of a sync stage. The set of stages is closed, so the
/// identifiers form an enumeration; `name` gives the short string form that
/// log lines and progress reports use.
#[derive(Clone, Copy, Debug, PartialEq, Eq, Structural, Hash)]
pub enum StageId {
    Headers,
    TotalGasIndex,
    BlockHashes,
    Bodies,
    TotalTxIndex,
    SenderRecovery,
    Execution,
    HashState,
    Interhashes,
    AccountHistoryIndex,
    StorageHistoryIndex,
    TxLookup,
    CallTraceIndex,
    Finish,
}

impl StageId {
    /// The short stable string form of the identifier.
    pub fn name(&self) -> (r: &'static str)
        ensures
            r@ == self.name_spec(),
    {
        proof {
            reveal_strlit("HEADERS");
            reveal_strlit("TotalGasIndex");
            reveal_strlit("BlockHashes");
            reveal_strlit("BODIES");
            reveal_strlit("TotalTxIndex");
            reveal_strlit("SenderRecovery");
            reveal_strlit("Execution");
            reveal_strlit("HashState");
            reveal_strlit("Interhashes");
            reveal_strlit("AccountHistoryIndex");
            reveal_strlit("StorageHistoryIndex");
            reveal_strlit("TxLookup");
            reveal_strlit("CallTraceIndex");
            reveal_strlit("FINISH");
        }
        match self {
            StageId::Headers => "HEADERS",
            StageId::TotalGasIndex => "TotalGasIndex",
            StageId::BlockHashes => "BlockHashes",
            StageId::Bodies => "BODIES",
            StageId::TotalTxIndex => "TotalTxIndex",
            StageId::SenderRecovery => "SenderRecovery",
            StageId::Execution => "Execution",
            StageId::HashState => "HashState",
            StageId::Interhashes => "Interhashes",
            StageId::AccountHistoryIndex => "AccountHistoryIndex",
            StageId::StorageHistoryIndex => "StorageHistoryIndex",
            StageId::TxLookup => "TxLookup",
            StageId::CallTraceIndex => "CallTraceIndex",
            StageId::Finish => "FINISH",
        }
    }

    /// What `name` returns, as a sequence of characters.
    pub open spec fn name_spec(&self) -> Seq<char> {
        match self {
            StageId::Headers => "HEADERS"@,
            StageId::TotalGasIndex => "TotalGasIndex"@,
            StageId::BlockHashes => "BlockHashes"@,
            StageId::Bodies => "BODIES"@,
            StageId::TotalTxIndex => "TotalTxIndex"@,
            StageId::SenderRecovery => "SenderRecovery"@,
            StageId::Execution => "Execution"@,
            StageId::HashState => "HashState"@,
            StageId::Interhashes => "Interhashes"@,
            StageId::AccountHistoryIndex => "AccountHistoryIndex"@,
            StageId::StorageHistoryIndex => "StorageHistoryIndex"@,
            StageId::TxLookup => "TxLookup"@,
            StageId::CallTraceIndex => "CallTraceIndex"@,
            StageId::Finish => "FINISH"@,
        }
    }
}

} // verus!
