use crate::models::{BlockHash, BodyForStorage, Header, TransactionRecord};
use crate::progress::ProgressTable;
use crate::table::Table;
use vstd::prelude::*;

verus! {

/// The tables the sync stages touch, in one transactional store: the
/// canonical chain index, the header and total-difficulty rows keyed by
/// block number, the block bodies with their transaction strides, the
/// transactions keyed by transaction id, and the per-stage progress records.
pub struct Tables {
    pub canonical: Table<BlockHash>,
    pub headers: Table<Header>,
    pub total_difficulty: Table<u64>,
    pub bodies: Table<BodyForStorage>,
    pub transactions: Table<TransactionRecord>,
    pub progress: ProgressTable,
}

/// Two table sets hold the same rows and records.
pub open spec fn tables_eqv(a: Tables, b: Tables) -> bool {
    &&& a.canonical@ == b.canonical@
    &&& a.headers@ == b.headers@
    &&& a.total_difficulty@ == b.total_difficulty@
    &&& a.bodies@ == b.bodies@
    &&& a.transactions@ == b.transactions@
    &&& a.progress@ == b.progress@
}

impl Tables {
    /// Every table is in ascending key order and every stage has at most
    /// one progress record.
    pub open spec fn wf(&self) -> bool {
        &&& self.canonical.wf()
        &&& self.headers.wf()
        &&& self.total_difficulty.wf()
        &&& self.bodies.wf()
        &&& self.transactions.wf()
        &&& self.progress.wf()
    }

    pub fn new() -> (r: Tables)
        ensures
            r.wf(),
            r.canonical@ =~= Seq::<(u64, BlockHash)>::empty(),
            r.headers@ =~= Seq::<(u64, Header)>::empty(),
            r.total_difficulty@ =~= Seq::<(u64, u64)>::empty(),
            r.bodies@ =~= Seq::<(u64, BodyForStorage)>::empty(),
            r.transactions@ =~= Seq::<(u64, TransactionRecord)>::empty(),
            r.progress@ =~= Seq::<(crate::stage_id::StageId, u64)>::empty(),
    {
        Tables {
            canonical: Table::new(),
            headers: Table::new(),
            total_difficulty: Table::new(),
            bodies: Table::new(),
            transactions: Table::new(),
            progress: ProgressTable::new(),
        }
    }

    /// An independent copy holding the same rows and records.
    pub fn duplicate(&self) -> (r: Tables)
        ensures
            tables_eqv(r, *self),
    {
        Tables {
            canonical: self.canonical.duplicate(),
            headers: self.headers.duplicate(),
            total_difficulty: self.total_difficulty.duplicate(),
            bodies: self.bodies.duplicate(),
            transactions: self.transactions.duplicate(),
            progress: self.progress.duplicate(),
        }
    }
}

/// The durable store: its tables are the last committed state. Work happens
/// in a transaction and reaches the store only through `RwTx::commit`, so a
/// run abandoned mid-pass leaves the store at the last commit.
pub struct Db {
    pub tables: Tables,
}

impl Db {
    pub fn new() -> (r: Db)
        ensures
            r.tables.wf(),
            r.tables.canonical@.len() == 0,
            r.tables.headers@.len() == 0,
            r.tables.total_difficulty@.len() == 0,
            r.tables.bodies@.len() == 0,
            r.tables.transactions@.len() == 0,
            r.tables.progress@.len() == 0,
    {
        Db { tables: Tables::new() }
    }

    /// Open a writable transaction over the committed state.
    pub fn begin(&self) -> (tx: RwTx)
        ensures
            tables_eqv(tx.tables, self.tables),
    {
        RwTx { tables: self.tables.duplicate() }
    }
}

/// A writable transaction: a working copy of the tables. Dropping it
/// discards the work; committing it makes the working copy the committed
/// state.
pub struct RwTx {
    pub tables: Tables,
}

impl RwTx {
    /// Make this transaction's tables the committed state.
    pub fn commit(self, db: &mut Db)
        ensures
            final(db).tables == self.tables,
    {
        db.tables = self.tables;
    }
}

} // verus!
