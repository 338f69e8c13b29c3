use crate::clock::now_timestamp;
use crate::convert_headers::diverged_at;
use crate::db::{tables_eqv, RwTx, Tables};
use crate::models::{BlockHash, BodyForStorage, TransactionRecord};
use crate::stage::{
    ExecOutput, PruningInput, Stage, StageError, StageInput, UnwindInput, UnwindOutput,
};
use crate::stage_id::StageId;
use crate::table::{
    cut_from, keys_at_most, keys_sorted, lemma_all_keys_below_max, lemma_cut_from_bounds,
    lemma_cut_from_split, lemma_cut_from_unique, lemma_get_at_max_is_last, seq_get,
};
use vstd::prelude::*;

verus! {

/// A batch accumulates until its running transaction count exceeds this
/// soft cap; the wall clock is consulted only at batch boundaries.
pub const MAX_TXS_PER_BATCH: u64 = 500_000;

/// The foreign store has a body row for block `bn`.
pub open spec fn body_present(src: Tables, bn: u64) -> bool {
    seq_get(src.bodies@, bn) is Some
}

/// The foreign store has a body for `bn` whose whole transaction stride
/// lies within the foreign transaction table.
pub open spec fn block_txs_ok(src: Tables, bn: u64) -> bool {
    seq_get(src.bodies@, bn) matches Some(b) && cut_from(src.transactions@, b.base_tx_id as int)
        + b.tx_amount <= src.transactions@.len()
}

/// The foreign body for the local canonical entry at index `l`.
pub open spec fn src_body_at(src: Tables, loc_c: Seq<(u64, BlockHash)>, l: int) -> BodyForStorage {
    seq_get(src.bodies@, loc_c[l].0).unwrap()
}

/// Transactions carried by the first `m` converted blocks together.
pub open spec fn tx_total(src: Tables, loc_c: Seq<(u64, BlockHash)>, l0: int, m: int) -> int
    decreases m,
{
    if m <= 0 {
        0
    } else {
        tx_total(src, loc_c, l0, m - 1) + src_body_at(src, loc_c, l0 + m - 1).tx_amount
    }
}

/// The body rows that converting the first `m` blocks appends, with
/// locally assigned dense transaction ids starting at `s0`.
pub open spec fn conv_body_rows(
    src: Tables,
    loc_c: Seq<(u64, BlockHash)>,
    l0: int,
    s0: u64,
    m: int,
) -> Seq<(u64, BodyForStorage)> {
    Seq::new(
        m as nat,
        |k: int|
            (
                loc_c[l0 + k].0,
                BodyForStorage {
                    base_tx_id: (s0 + tx_total(src, loc_c, l0, k)) as u64,
                    tx_amount: src_body_at(src, loc_c, l0 + k).tx_amount,
                    uncle_count: src_body_at(src, loc_c, l0 + k).uncle_count,
                },
            ),
    )
}

/// The transaction rows that converting block `k` appends: the foreign
/// payloads of its stride, re-keyed under the locally assigned ids.
pub open spec fn block_tx_rows(
    src: Tables,
    loc_c: Seq<(u64, BlockHash)>,
    l0: int,
    s0: u64,
    k: int,
) -> Seq<(u64, TransactionRecord)> {
    let b = src_body_at(src, loc_c, l0 + k);
    let p0 = cut_from(src.transactions@, b.base_tx_id as int);
    Seq::new(
        b.tx_amount as nat,
        |t: int| (((s0 + tx_total(src, loc_c, l0, k) + t) as u64), src.transactions@[p0 + t].1),
    )
}

/// The transaction rows that converting the first `m` blocks appends.
pub open spec fn conv_tx_rows(
    src: Tables,
    loc_c: Seq<(u64, BlockHash)>,
    l0: int,
    s0: u64,
    m: int,
) -> Seq<(u64, TransactionRecord)>
    decreases m,
{
    if m <= 0 {
        Seq::empty()
    } else {
        conv_tx_rows(src, loc_c, l0, s0, m - 1) + block_tx_rows(src, loc_c, l0, s0, m - 1)
    }
}

/// How many consecutive local canonical entries from index `l0` on have a
/// body in the foreign store.
pub open spec fn bodies_avail(src: Tables, loc_c: Seq<(u64, BlockHash)>, l0: int) -> int
    decreases loc_c.len() - l0,
{
    if l0 < 0 || l0 >= loc_c.len() {
        0
    } else if !body_present(src, loc_c[l0].0) {
        0
    } else {
        1 + bodies_avail(src, loc_c, l0 + 1)
    }
}

pub proof fn lemma_bodies_avail_nonneg(src: Tables, loc_c: Seq<(u64, BlockHash)>, l0: int)
    ensures
        bodies_avail(src, loc_c, l0) >= 0,
    decreases loc_c.len() - l0,
{
    if 0 <= l0 && l0 < loc_c.len() && body_present(src, loc_c[l0].0) {
        lemma_bodies_avail_nonneg(src, loc_c, l0 + 1);
    }
}

pub proof fn lemma_bodies_avail_le_len(src: Tables, loc_c: Seq<(u64, BlockHash)>, l0: int)
    requires
        0 <= l0 <= loc_c.len(),
    ensures
        bodies_avail(src, loc_c, l0) <= loc_c.len() - l0,
    decreases loc_c.len() - l0,
{
    if l0 < loc_c.len() && body_present(src, loc_c[l0].0) {
        lemma_bodies_avail_le_len(src, loc_c, l0 + 1);
    }
}

/// Converted blocks never carry negatively many transactions.
pub proof fn lemma_tx_total_mono(src: Tables, loc_c: Seq<(u64, BlockHash)>, l0: int, a: int, b: int)
    requires
        a <= b,
    ensures
        tx_total(src, loc_c, l0, a) <= tx_total(src, loc_c, l0, b),
    decreases b - a,
{
    if a < b {
        lemma_tx_total_mono(src, loc_c, l0, a, b - 1);
    }
}

/// Transactions over a span split at any cut: the first `k` blocks and the
/// remaining `j` blocks counted from there.
pub proof fn lemma_tx_total_split(
    src: Tables,
    loc_c: Seq<(u64, BlockHash)>,
    l0: int,
    k: int,
    j: int,
)
    requires
        0 <= k,
        0 <= j,
    ensures
        tx_total(src, loc_c, l0, k + j) == tx_total(src, loc_c, l0, k) + tx_total(
            src,
            loc_c,
            l0 + k,
            j,
        ),
    decreases j,
{
    if j > 0 {
        lemma_tx_total_split(src, loc_c, l0, k, j - 1);
        assert(src_body_at(src, loc_c, l0 + (k + j) - 1) == src_body_at(
            src,
            loc_c,
            (l0 + k) + j - 1,
        ));
    }
}

/// A finite availability count ends where it says: no block is available
/// right past it.
pub proof fn lemma_bodies_avail_tail(src: Tables, loc_c: Seq<(u64, BlockHash)>, l0: int, m: int)
    requires
        0 <= l0,
        0 <= m,
        bodies_avail(src, loc_c, l0) == m,
    ensures
        bodies_avail(src, loc_c, l0 + m) == 0,
    decreases m,
{
    if m > 0 {
        assert(bodies_avail(src, loc_c, l0 + 1) == m - 1);
        lemma_bodies_avail_tail(src, loc_c, l0 + 1, m - 1);
    }
}

pub proof fn lemma_bodies_avail_at_least(
    src: Tables,
    loc_c: Seq<(u64, BlockHash)>,
    l0: int,
    m: int,
)
    requires
        0 <= l0,
        0 <= m,
        l0 + m <= loc_c.len(),
        forall|x: int| l0 <= x < l0 + m ==> body_present(src, (#[trigger] loc_c[x]).0),
    ensures
        bodies_avail(src, loc_c, l0) >= m,
    decreases m,
{
    if m > 0 {
        assert(body_present(src, loc_c[l0].0));
        lemma_bodies_avail_at_least(src, loc_c, l0 + 1, m - 1);
        assert(bodies_avail(src, loc_c, l0) == 1 + bodies_avail(src, loc_c, l0 + 1));
    } else {
        lemma_bodies_avail_nonneg(src, loc_c, l0);
    }
}

pub proof fn lemma_bodies_avail_exact(src: Tables, loc_c: Seq<(u64, BlockHash)>, l0: int, m: int)
    requires
        0 <= l0,
        0 <= m,
        l0 + m <= loc_c.len(),
        forall|x: int| l0 <= x < l0 + m ==> body_present(src, (#[trigger] loc_c[x]).0),
        l0 + m == loc_c.len() || !body_present(src, loc_c[l0 + m].0),
    ensures
        bodies_avail(src, loc_c, l0) == m,
    decreases m,
{
    if m == 0 {
        if l0 < loc_c.len() {
            assert(!body_present(src, loc_c[l0].0));
        }
    } else {
        assert(body_present(src, loc_c[l0].0));
        lemma_bodies_avail_exact(src, loc_c, l0 + 1, m - 1);
        assert(bodies_avail(src, loc_c, l0) == 1 + bodies_avail(src, loc_c, l0 + 1));
    }
}

/// The local body rows exactly cover the local transaction table: strides
/// are contiguous across blocks and the transaction ids are dense from the
/// first stride's base to the last stride's end.
pub open spec fn bodies_cover_txs(
    bodies: Seq<(u64, BodyForStorage)>,
    txs: Seq<(u64, TransactionRecord)>,
) -> bool {
    &&& forall|i: int|
        0 <= i < bodies.len() - 1 ==> (#[trigger] bodies[i + 1]).1.base_tx_id == bodies[i].1.base_tx_id
            + bodies[i].1.tx_amount
    &&& bodies.len() == 0 ==> txs.len() == 0
    &&& bodies.len() > 0 ==> {
        &&& txs.len() == bodies.last().1.base_tx_id + bodies.last().1.tx_amount
            - bodies[0].1.base_tx_id
        &&& forall|j: int|
            0 <= j < txs.len() ==> (#[trigger] txs[j]).0 == bodies[0].1.base_tx_id + j
    }
}

/// The first locally assigned transaction id of a call entered at progress
/// `h`: one past the stride of the body stored at `h`.
pub open spec fn start_tx_id(loc: Tables, h: u64) -> u64 {
    let pb = seq_get(loc.bodies@, h).unwrap();
    (pb.base_tx_id + pb.tx_amount) as u64
}

/// A successful forward call converted exactly the first `m` available
/// blocks past progress `h`: the appended body and transaction rows, the
/// reported progress, and the meaning of `done`.
#[verifier::opaque]
pub open spec fn bodies_converted(
    stage: ConvertBodies,
    loc0: Tables,
    loc1: Tables,
    h: u64,
    stage_progress: u64,
    done: bool,
    m: int,
) -> bool {
    let src = stage.source;
    let loc_c = loc0.canonical@;
    let l0 = cut_from(loc_c, h + 1);
    let avail = bodies_avail(src, loc_c, l0);
    &&& 0 <= m <= avail
    &&& (avail > 0 ==> m > 0)
    &&& (forall|k: int| 0 <= k < m ==> block_txs_ok(src, (#[trigger] loc_c[l0 + k]).0))
    &&& loc1.bodies@ == loc0.bodies@ + conv_body_rows(src, loc_c, l0, start_tx_id(loc0, h), m)
    &&& loc1.transactions@ == loc0.transactions@ + conv_tx_rows(
        src,
        loc_c,
        l0,
        start_tx_id(loc0, h),
        m,
    )
    &&& stage_progress == if m > 0 {
        loc_c[l0 + m - 1].0
    } else {
        h
    }
    &&& (done <==> m == avail)
}

/// Everything a forward call of `ConvertBodies` may do, as a relation
/// between the tables before and after. The number of blocks converted
/// before an unfinished return depends on the wall clock, so it is
/// existential; a finished return has converted every available block.
#[verifier::opaque]
pub open spec fn bodies_execute_post(
    stage: ConvertBodies,
    loc0: Tables,
    loc1: Tables,
    h: u64,
    r: Result<ExecOutput, StageError>,
) -> bool {
    let src = stage.source;
    let loc_c = loc0.canonical@;
    let l0 = cut_from(loc_c, h + 1);
    let avail = bodies_avail(src, loc_c, l0);
    match r {
        Ok(ExecOutput::Progress { stage_progress, done }) => {
            &&& !diverged_at(src, loc0, h)
            &&& seq_get(loc0.bodies@, h) is Some
            &&& exists|m: int| bodies_converted(stage, loc0, loc1, h, stage_progress, done, m)
            &&& stage_progress >= h
        },
        Ok(ExecOutput::Unwind { unwind_to }) => {
            &&& diverged_at(src, loc0, h)
            &&& h > 0
            &&& unwind_to == h - 1
            &&& tables_eqv(loc1, loc0)
        },
        Err(StageError::UnwindPastGenesis) => {
            &&& diverged_at(src, loc0, h)
            &&& h == 0
            &&& tables_eqv(loc1, loc0)
        },
        Err(StageError::MissingBody { block }) => {
            &&& !diverged_at(src, loc0, h)
            &&& block == h
            &&& seq_get(loc0.bodies@, h) is None
            &&& tables_eqv(loc1, loc0)
        },
        Err(StageError::ShortTransactionRead { block }) => {
            &&& !diverged_at(src, loc0, h)
            &&& body_present(src, block)
            &&& !block_txs_ok(src, block)
            &&& exists|l: int| l0 <= l < l0 + avail && loc_c[l].0 == block
        },
        Err(StageError::TxIdOverflow) => {
            &&& !diverged_at(src, loc0, h)
            &&& seq_get(loc0.bodies@, h) matches Some(pb) && (pb.base_tx_id + pb.tx_amount
                > u64::MAX || exists|k: int|
                0 <= k < avail && pb.base_tx_id + pb.tx_amount + #[trigger] tx_total(
                    src,
                    loc_c,
                    l0,
                    k + 1,
                ) > u64::MAX)
        },
        _ => false,
    }
}

/// Import stage for block bodies: walks local canonical headers and foreign
/// bodies in lockstep, pulls each body's transaction stride from the
/// foreign store, and re-emits both with locally assigned dense transaction
/// ids. Batches are bounded by a soft transaction-count cap; when the wall
/// clock since entry exceeds `commit_after`, the stage returns unfinished
/// work so the pipeline commits.
pub struct ConvertBodies {
    /// Snapshot of the foreign store read during conversion.
    pub source: Tables,
    /// Wall-clock budget, in seconds, before the stage asks for a commit.
    pub commit_after: u64,
}

impl ConvertBodies {
    /// The tables this stage reads from the foreign store are sorted.
    pub open spec fn wf(&self) -> bool {
        &&& keys_sorted(self.source.canonical@)
        &&& keys_sorted(self.source.bodies@)
        &&& keys_sorted(self.source.transactions@)
    }

    pub fn new(source: Tables, commit_after: u64) -> (r: ConvertBodies)
        ensures
            r.source == source,
            r.commit_after == commit_after,
    {
        ConvertBodies { source, commit_after }
    }

    /// Forward conversion.
    #[verifier::spinoff_prover]
    #[verifier::rlimit(100)]
    pub fn execute(&self, tx: &mut RwTx, input: StageInput) -> (r: Result<ExecOutput, StageError>)
        requires
            old(tx).tables.wf(),
            self.wf(),
            keys_at_most(old(tx).tables.bodies@, input.progress_or_genesis()),
            bodies_cover_txs(old(tx).tables.bodies@, old(tx).tables.transactions@),
        ensures
            final(tx).tables.wf(),
            final(tx).tables.canonical@ == old(tx).tables.canonical@,
            final(tx).tables.headers@ == old(tx).tables.headers@,
            final(tx).tables.total_difficulty@ == old(tx).tables.total_difficulty@,
            final(tx).tables.progress@ == old(tx).tables.progress@,
            r is Ok ==> bodies_cover_txs(
                final(tx).tables.bodies@,
                final(tx).tables.transactions@,
            ),
            bodies_execute_post(
                *self,
                old(tx).tables,
                final(tx).tables,
                input.progress_or_genesis(),
                r,
            ),
    {
        reveal(bodies_execute_post);
        reveal(bodies_converted);
        let h: u64 = match input.stage_progress {
            Some(p) => p,
            None => 0,
        };
        let ghost t0 = old(tx).tables;
        let ghost loc_c = t0.canonical@;

        let src_at_h = self.source.canonical.get(h);
        let loc_at_h = tx.tables.canonical.get(h);
        let same = match (&src_at_h, &loc_at_h) {
            (Option::None, Option::None) => true,
            (Option::Some(a), Option::Some(b)) => *a == *b,
            _ => false,
        };
        if !same {
            if h == 0 {
                return Err(StageError::UnwindPastGenesis);
            }
            return Ok(ExecOutput::Unwind { unwind_to: h - 1 });
        }

        let pb = match tx.tables.bodies.get(h) {
            Some(b) => b,
            None => {
                return Err(StageError::MissingBody { block: h });
            },
        };
        let mut next_id: u64 = match pb.base_tx_id.checked_add(pb.tx_amount) {
            Some(v) => v,
            None => {
                return Err(StageError::TxIdOverflow);
            },
        };
        let ghost s0 = next_id;
        proof {
            assert(s0 == start_tx_id(t0, h));
            lemma_get_at_max_is_last(t0.bodies@, h);
        }
        let ghost base0 = t0.bodies@[0].1.base_tx_id;

        if h == u64::MAX {
            proof {
                lemma_all_keys_below_max(loc_c);
                assert(bodies_avail(self.source, loc_c, loc_c.len() as int) == 0);
                assert(tx.tables.bodies@ =~= t0.bodies@ + conv_body_rows(
                    self.source,
                    loc_c,
                    loc_c.len() as int,
                    s0,
                    0,
                ));
                assert(tx.tables.transactions@ =~= t0.transactions@ + conv_tx_rows(
                    self.source,
                    loc_c,
                    loc_c.len() as int,
                    s0,
                    0,
                ));
            }
            let out0 = ExecOutput::Progress { stage_progress: h, done: true };
            let result0: Result<ExecOutput, StageError> = Ok(out0);
            proof {
                match result0 {
                    Ok(ExecOutput::Progress { stage_progress, done }) => {
                        assert(bodies_converted(
                            *self,
                            t0,
                            tx.tables,
                            h,
                            stage_progress,
                            done,
                            0,
                        ));
                        assert(exists|mm: int|
                            bodies_converted(*self, t0, tx.tables, h, stage_progress, done, mm));
                    },
                    _ => {},
                }
                assert(bodies_execute_post(*self, t0, tx.tables, h, result0));
            }
            return result0;
        }

        let started = now_timestamp();
        let n = tx.tables.canonical.len();
        let mut l: usize = tx.tables.canonical.index_from(h + 1);
        let ghost l0 = l as int;
        let mut highest: u64 = h;
        let mut accum: u64 = 0;
        let mut stop = false;
        let mut clock_stop = false;
        proof {
            lemma_cut_from_split(loc_c, h + 1);
        }
        while l < n && !stop
            invariant
                self.wf(),
                tx.tables.wf(),
                t0 == old(tx).tables,
                h == input.progress_or_genesis(),
                h < u64::MAX,
                !diverged_at(self.source, t0, h),
                loc_c == t0.canonical@,
                n == loc_c.len(),
                l0 == cut_from(loc_c, h + 1),
                l0 <= l <= n,
                tx.tables.canonical@ == t0.canonical@,
                tx.tables.headers@ == t0.headers@,
                tx.tables.total_difficulty@ == t0.total_difficulty@,
                tx.tables.progress@ == t0.progress@,
                keys_at_most(t0.bodies@, h),
                bodies_cover_txs(t0.bodies@, t0.transactions@),
                seq_get(t0.bodies@, h) == Some(pb),
                t0.bodies@.len() > 0,
                t0.bodies@.last() == (h, pb),
                base0 == t0.bodies@[0].1.base_tx_id,
                s0 == pb.base_tx_id + pb.tx_amount,
                s0 == start_tx_id(t0, h),
                forall|k: int|
                    l0 <= k < l ==> body_present(self.source, (#[trigger] loc_c[k]).0)
                        && block_txs_ok(self.source, loc_c[k].0),
                tx.tables.bodies@ == t0.bodies@ + conv_body_rows(
                    self.source,
                    loc_c,
                    l0,
                    s0,
                    l - l0,
                ),
                tx.tables.transactions@ == t0.transactions@ + conv_tx_rows(
                    self.source,
                    loc_c,
                    l0,
                    s0,
                    l - l0,
                ),
                next_id == s0 + tx_total(self.source, loc_c, l0, l - l0),
                tx.tables.bodies@.len() > 0,
                tx.tables.bodies@[0].1.base_tx_id == base0,
                tx.tables.bodies@.last().1.base_tx_id + tx.tables.bodies@.last().1.tx_amount
                    == next_id,
                tx.tables.bodies@.last().0 == if l > l0 {
                    loc_c[l - 1].0
                } else {
                    h
                },
                forall|i: int|
                    0 <= i < tx.tables.bodies@.len() - 1 ==> (#[trigger] tx.tables.bodies@[i
                    + 1]).1.base_tx_id == tx.tables.bodies@[i].1.base_tx_id
                    + tx.tables.bodies@[i].1.tx_amount,
                tx.tables.transactions@.len() == next_id - base0,
                forall|j: int|
                    0 <= j < tx.tables.transactions@.len() ==> (#[trigger] tx.tables.transactions@[j]).0
                        == base0 + j,
                highest == if l > l0 {
                    loc_c[l - 1].0
                } else {
                    h
                },
                h <= highest,
                stop ==> l < n,
                stop && !clock_stop ==> !body_present(self.source, loc_c[l as int].0),
                clock_stop ==> stop,
                clock_stop ==> body_present(self.source, loc_c[l as int].0) && l > l0,
            decreases n - l + if stop {
                0int
            } else {
                1int
            },
        {
            reveal(bodies_execute_post);
            reveal(bodies_converted);
            let (bn, _bh) = tx.tables.canonical.row(l);
            proof {
                lemma_cut_from_split(loc_c, h + 1);
                assert(bn >= h + 1);
            }
            match self.source.bodies.get(bn) {
                None => {
                    stop = true;
                },
                Some(b) => {
                    let p0 = self.source.transactions.index_from(b.base_tx_id);
                    let tn = self.source.transactions.len();
                    proof {
                        lemma_cut_from_bounds(self.source.transactions@, b.base_tx_id as int);
                    }
                    if ((tn - p0) as u64) < b.tx_amount {
                        proof {
                            assert(!block_txs_ok(self.source, bn));
                            assert forall|x: int|
                                l0 <= x < l0 + (l - l0 + 1) implies body_present(
                                self.source,
                                (#[trigger] loc_c[x]).0,
                            ) by {
                                if x < l {
                                    assert(body_present(self.source, loc_c[x].0));
                                } else {
                                    assert(loc_c[x].0 == bn);
                                }
                            }
                            lemma_bodies_avail_at_least(self.source, loc_c, l0, l - l0 + 1);
                            assert(exists|x: int|
                                l0 <= x < l0 + bodies_avail(self.source, loc_c, l0)
                                    && loc_c[x].0 == bn) by {
                                assert(l0 <= l as int && (l as int) < l0 + bodies_avail(
                                    self.source,
                                    loc_c,
                                    l0,
                                ) && loc_c[l as int].0 == bn);
                            }
                        }
                        return Err(StageError::ShortTransactionRead { block: bn });
                    }
                    let new_next = match next_id.checked_add(b.tx_amount) {
                        Some(v) => v,
                        None => {
                            proof {
                                assert forall|x: int|
                                    l0 <= x < l0 + (l - l0 + 1) implies body_present(
                                    self.source,
                                    (#[trigger] loc_c[x]).0,
                                ) by {
                                    if x < l {
                                        assert(body_present(self.source, loc_c[x].0));
                                    } else {
                                        assert(loc_c[x].0 == bn);
                                    }
                                }
                                lemma_bodies_avail_at_least(self.source, loc_c, l0, l - l0 + 1);
                                let ghost k = l - l0;
                                assert(tx_total(self.source, loc_c, l0, k + 1) == tx_total(
                                    self.source,
                                    loc_c,
                                    l0,
                                    k,
                                ) + b.tx_amount);
                                assert(0 <= k < bodies_avail(self.source, loc_c, l0)
                                    && pb.base_tx_id + pb.tx_amount + tx_total(
                                    self.source,
                                    loc_c,
                                    l0,
                                    k + 1,
                                ) > u64::MAX);
                            }
                            return Err(StageError::TxIdOverflow);
                        },
                    };
                    let ghost next_id0 = next_id;
                    let ghost bodies_before = tx.tables.bodies@;
                    let ghost txs_before = tx.tables.transactions@;
                    tx.tables.bodies.append(
                        bn,
                        BodyForStorage {
                            base_tx_id: next_id,
                            tx_amount: b.tx_amount,
                            uncle_count: b.uncle_count,
                        },
                    );
                    let mut t: u64 = 0;
                    while t < b.tx_amount
                        invariant
                            self.wf(),
                            keys_sorted(tx.tables.transactions@),
                            tx.tables.canonical@ == loc_c,
                            keys_sorted(tx.tables.canonical@),
                            tx.tables.headers@ == t0.headers@,
                            tx.tables.total_difficulty@ == t0.total_difficulty@,
                            tx.tables.progress@ == t0.progress@,
                            keys_sorted(tx.tables.headers@),
                            keys_sorted(tx.tables.total_difficulty@),
                            tx.tables.progress.wf(),
                            keys_sorted(tx.tables.bodies@),
                            tx.tables.bodies@ == bodies_before.push(
                                (
                                    bn,
                                    BodyForStorage {
                                        base_tx_id: next_id,
                                        tx_amount: b.tx_amount,
                                        uncle_count: b.uncle_count,
                                    },
                                ),
                            ),
                            0 <= t <= b.tx_amount,
                            p0 == cut_from(self.source.transactions@, b.base_tx_id as int),
                            tn == self.source.transactions@.len(),
                            p0 + b.tx_amount <= tn,
                            next_id + b.tx_amount <= u64::MAX,
                            tx.tables.transactions@ == txs_before + Seq::new(
                                t as nat,
                                |tt: int|
                                    (
                                        (next_id + tt) as u64,
                                        self.source.transactions@[p0 + tt].1,
                                    ),
                            ),
                            txs_before.len() == next_id - base0,
                            base0 + txs_before.len() + t == next_id + t,
                            forall|j: int|
                                0 <= j < tx.tables.transactions@.len() ==> (
                                #[trigger] tx.tables.transactions@[j]).0 == base0 + j,
                        decreases b.tx_amount - t,
                    {
                        let row = self.source.transactions.row(p0 + (t as usize));
                        proof {
                            if tx.tables.transactions@.len() > 0 {
                                assert(tx.tables.transactions@.last().0 == base0
                                    + (tx.tables.transactions@.len() - 1));
                            }
                        }
                        tx.tables.transactions.append(next_id + t, row.1);
                        t = t + 1;
                        proof {
                            assert(tx.tables.transactions@ =~= txs_before + Seq::new(
                                t as nat,
                                |tt: int|
                                    (
                                        (next_id + tt) as u64,
                                        self.source.transactions@[p0 + tt].1,
                                    ),
                            ));
                        }
                    }
                    let ghost m_old = l - l0;
                    next_id = new_next;
                    highest = bn;
                    l += 1;
                    accum = accum.saturating_add(b.tx_amount);
                    proof {
                        assert(seq_get(self.source.bodies@, bn) == Some(b));
                        assert(loc_c[l0 + m_old].0 == bn);
                        assert(next_id0 == s0 + tx_total(self.source, loc_c, l0, m_old));
                        assert(tx_total(self.source, loc_c, l0, m_old + 1) == tx_total(
                            self.source,
                            loc_c,
                            l0,
                            m_old,
                        ) + b.tx_amount);
                        assert((s0 + tx_total(self.source, loc_c, l0, m_old)) as u64 == next_id0);
                        assert(conv_body_rows(self.source, loc_c, l0, s0, m_old + 1)
                            =~= conv_body_rows(self.source, loc_c, l0, s0, m_old).push(
                            (
                                bn,
                                BodyForStorage {
                                    base_tx_id: next_id0,
                                    tx_amount: b.tx_amount,
                                    uncle_count: b.uncle_count,
                                },
                            ),
                        ));
                        assert(tx.tables.bodies@ =~= t0.bodies@ + conv_body_rows(
                            self.source,
                            loc_c,
                            l0,
                            s0,
                            l - l0,
                        ));
                        assert(block_tx_rows(self.source, loc_c, l0, s0, m_old) =~= Seq::new(
                            b.tx_amount as nat,
                            |tt: int|
                                ((next_id0 + tt) as u64, self.source.transactions@[p0 + tt].1),
                        ));
                        assert(tx.tables.transactions@ =~= t0.transactions@ + conv_tx_rows(
                            self.source,
                            loc_c,
                            l0,
                            s0,
                            l - l0,
                        ));
                    }
                    if accum > MAX_TXS_PER_BATCH {
                        accum = 0;
                        let now = now_timestamp();
                        if now.saturating_sub(started) > self.commit_after {
                            if l < n {
                                let (bn2, _bh2) = tx.tables.canonical.row(l);
                                if self.source.bodies.get(bn2).is_some() {
                                    stop = true;
                                    clock_stop = true;
                                }
                            }
                        }
                    }
                },
            }
        }
        reveal(bodies_execute_post);
        reveal(bodies_converted);
        let ghost m = l - l0;
        proof {
            assert forall|x: int| l0 <= x < l0 + m implies body_present(
                self.source,
                (#[trigger] loc_c[x]).0,
            ) by {
                assert(body_present(self.source, loc_c[x].0));
            }
            if clock_stop {
                assert forall|x: int| l0 <= x < l0 + (m + 1) implies body_present(
                    self.source,
                    (#[trigger] loc_c[x]).0,
                ) by {
                    assert(body_present(self.source, loc_c[x].0));
                }
                lemma_bodies_avail_at_least(self.source, loc_c, l0, m + 1);
            } else {
                lemma_bodies_avail_exact(self.source, loc_c, l0, m);
            }
            let avail = bodies_avail(self.source, loc_c, l0);
            assert(avail > 0 ==> m > 0) by {
                if m == 0 && avail > 0 {
                    assert(!clock_stop);
                }
            }
            assert(bodies_cover_txs(tx.tables.bodies@, tx.tables.transactions@));
        }
        let out = ExecOutput::Progress { stage_progress: highest, done: !clock_stop };
        let result: Result<ExecOutput, StageError> = Ok(out);
        proof {
            match result {
                Ok(ExecOutput::Progress { stage_progress, done }) => {
                    assert(bodies_converted(
                        *self,
                        t0,
                        tx.tables,
                        h,
                        stage_progress,
                        done,
                        l - l0,
                    ));
                    assert(exists|mm: int|
                        bodies_converted(*self, t0, tx.tables, h, stage_progress, done, mm));
                },
                _ => {},
            }
            assert(bodies_execute_post(*self, t0, tx.tables, h, result));
        }
        result
    }
}

/// With contiguous strides, no stride starts before the first one.
proof fn lemma_stride_lower(bodies: Seq<(u64, BodyForStorage)>, i: int)
    requires
        forall|x: int|
            0 <= x < bodies.len() - 1 ==> (#[trigger] bodies[x + 1]).1.base_tx_id
                == bodies[x].1.base_tx_id + bodies[x].1.tx_amount,
        0 <= i < bodies.len(),
    ensures
        bodies[0].1.base_tx_id <= bodies[i].1.base_tx_id,
    decreases i,
{
    if i > 0 {
        lemma_stride_lower(bodies, i - 1);
        assert(bodies[(i - 1) + 1].1.base_tx_id == bodies[i - 1].1.base_tx_id + bodies[i
            - 1].1.tx_amount);
    }
}

/// With contiguous strides, no stride ends after the last one.
proof fn lemma_stride_upper(bodies: Seq<(u64, BodyForStorage)>, i: int)
    requires
        forall|x: int|
            0 <= x < bodies.len() - 1 ==> (#[trigger] bodies[x + 1]).1.base_tx_id
                == bodies[x].1.base_tx_id + bodies[x].1.tx_amount,
        0 <= i < bodies.len(),
    ensures
        bodies[i].1.base_tx_id + bodies[i].1.tx_amount <= bodies.last().1.base_tx_id
            + bodies.last().1.tx_amount,
    decreases bodies.len() - i,
{
    if i < bodies.len() - 1 {
        assert(bodies[i + 1].1.base_tx_id == bodies[i].1.base_tx_id + bodies[i].1.tx_amount);
        lemma_stride_upper(bodies, i + 1);
    }
}

/// Under full coverage, the transaction rows of the strides from body `c`
/// on are exactly the rows from position `base_c - base_0` on.
proof fn lemma_tx_cut_at_stride(
    bodies: Seq<(u64, BodyForStorage)>,
    txs: Seq<(u64, TransactionRecord)>,
    c: int,
)
    requires
        bodies_cover_txs(bodies, txs),
        0 <= c < bodies.len(),
    ensures
        bodies[0].1.base_tx_id <= bodies[c].1.base_tx_id,
        bodies[c].1.base_tx_id - bodies[0].1.base_tx_id <= txs.len(),
        cut_from(txs, bodies[c].1.base_tx_id as int) == bodies[c].1.base_tx_id
            - bodies[0].1.base_tx_id,
{
    let base0 = bodies[0].1.base_tx_id;
    let base = bodies[c].1.base_tx_id;
    lemma_stride_lower(bodies, c);
    lemma_stride_upper(bodies, c);
    assert(keys_sorted(txs)) by {
        assert forall|i: int, j: int| 0 <= i < j < txs.len() implies txs[i].0 < txs[j].0 by {
            assert(txs[i].0 == base0 + i);
            assert(txs[j].0 == base0 + j);
        }
    }
    assert forall|j: int| 0 <= j < base - base0 implies txs[j].0 < base as int by {
        assert(txs[j].0 == base0 + j);
    }
    if base - base0 < txs.len() {
        assert(txs[base - base0].0 == base0 + (base - base0));
    }
    lemma_cut_from_unique(txs, base as int, base - base0);
}

/// Where the transaction table is cut when the bodies with keys at or past
/// threshold `k` part from the bodies below it: at the first kept or
/// removed stride's base, or at the end when no body lies past `k`.
pub open spec fn tx_cut_at(
    bodies: Seq<(u64, BodyForStorage)>,
    txs: Seq<(u64, TransactionRecord)>,
    k: int,
) -> int {
    let c = cut_from(bodies, k);
    if c == bodies.len() {
        txs.len() as int
    } else {
        bodies[c].1.base_tx_id - bodies[0].1.base_tx_id
    }
}

impl ConvertBodies {
    /// Remove every body above the unwind target together with the
    /// transactions of its stride.
    pub fn unwind(&self, tx: &mut RwTx, input: UnwindInput) -> (r: Result<
        UnwindOutput,
        StageError,
    >)
        requires
            old(tx).tables.wf(),
        ensures
            final(tx).tables.wf(),
            final(tx).tables.canonical@ == old(tx).tables.canonical@,
            final(tx).tables.headers@ == old(tx).tables.headers@,
            final(tx).tables.total_difficulty@ == old(tx).tables.total_difficulty@,
            final(tx).tables.progress@ == old(tx).tables.progress@,
            final(tx).tables.bodies@ == old(tx).tables.bodies@.subrange(
                0,
                cut_from(old(tx).tables.bodies@, input.unwind_to + 1),
            ),
            bodies_cover_txs(old(tx).tables.bodies@, old(tx).tables.transactions@) ==> {
                &&& final(tx).tables.transactions@ == old(tx).tables.transactions@.subrange(
                    0,
                    tx_cut_at(
                        old(tx).tables.bodies@,
                        old(tx).tables.transactions@,
                        input.unwind_to + 1,
                    ),
                )
                &&& bodies_cover_txs(final(tx).tables.bodies@, final(tx).tables.transactions@)
            },
            r == Ok::<UnwindOutput, StageError>(
                UnwindOutput { stage_progress: input.unwind_to },
            ),
    {
        let ghost bodies0 = tx.tables.bodies@;
        let ghost txs0 = tx.tables.transactions@;
        if input.unwind_to == u64::MAX {
            proof {
                lemma_all_keys_below_max(bodies0);
                assert(tx.tables.bodies@ =~= bodies0.subrange(
                    0,
                    cut_from(bodies0, input.unwind_to + 1),
                ));
                assert(tx.tables.transactions@ =~= txs0.subrange(
                    0,
                    tx_cut_at(bodies0, txs0, input.unwind_to + 1),
                ));
            }
            return Ok(UnwindOutput { stage_progress: input.unwind_to });
        }
        let k = input.unwind_to + 1;
        let c = tx.tables.bodies.index_from(k);
        let blen = tx.tables.bodies.len();
        proof {
            lemma_cut_from_bounds(bodies0, k as int);
        }
        if c == blen {
            proof {
                assert(tx.tables.bodies@ =~= bodies0.subrange(0, cut_from(bodies0, k as int)));
                assert(tx.tables.transactions@ =~= txs0.subrange(
                    0,
                    tx_cut_at(bodies0, txs0, k as int),
                ));
            }
            return Ok(UnwindOutput { stage_progress: input.unwind_to });
        }
        let (_bk, b) = tx.tables.bodies.row(c);
        proof {
            if bodies_cover_txs(bodies0, txs0) {
                lemma_tx_cut_at_stride(bodies0, txs0, c as int);
            }
        }
        tx.tables.transactions.truncate_from(b.base_tx_id);
        tx.tables.bodies.truncate_from(k);
        proof {
            if bodies_cover_txs(bodies0, txs0) {
                assert(tx.tables.transactions@ =~= txs0.subrange(
                    0,
                    tx_cut_at(bodies0, txs0, k as int),
                ));
                let nb = tx.tables.bodies@;
                let nt = tx.tables.transactions@;
                assert forall|i: int|
                    0 <= i < nb.len() - 1 implies (#[trigger] nb[i + 1]).1.base_tx_id == nb[i].1.base_tx_id
                    + nb[i].1.tx_amount by {
                    assert(nb[i + 1] == bodies0[i + 1]);
                    assert(bodies0[i + 1].1.base_tx_id == bodies0[i].1.base_tx_id
                        + bodies0[i].1.tx_amount);
                }
                if nb.len() > 0 {
                    assert(bodies0[(c - 1) + 1].1.base_tx_id == bodies0[c - 1].1.base_tx_id
                        + bodies0[c - 1].1.tx_amount);
                    assert(nb.last() == bodies0[c - 1]);
                    assert(nt.len() == nb.last().1.base_tx_id + nb.last().1.tx_amount
                        - nb[0].1.base_tx_id);
                    assert forall|j: int|
                        0 <= j < nt.len() implies (#[trigger] nt[j]).0 == nb[0].1.base_tx_id
                        + j by {
                        assert(nt[j] == txs0[j]);
                        assert(txs0[j].0 == bodies0[0].1.base_tx_id + j);
                    }
                }
                assert(bodies_cover_txs(nb, nt));
            }
        }
        Ok(UnwindOutput { stage_progress: input.unwind_to })
    }

    /// Drop every body strictly below the prune target together with the
    /// transactions of its stride. A store whose body strides do not cover
    /// its transaction table holds a stride referencing missing rows, an
    /// invariant violation: pruning it is refused as fatal, with the store
    /// untouched.
    pub fn prune(&self, tx: &mut RwTx, input: PruningInput) -> (r: Result<(), StageError>)
        requires
            old(tx).tables.wf(),
        ensures
            final(tx).tables.wf(),
            final(tx).tables.canonical@ == old(tx).tables.canonical@,
            final(tx).tables.headers@ == old(tx).tables.headers@,
            final(tx).tables.total_difficulty@ == old(tx).tables.total_difficulty@,
            final(tx).tables.progress@ == old(tx).tables.progress@,
            bodies_cover_txs(old(tx).tables.bodies@, old(tx).tables.transactions@) ==> {
                &&& r == Ok::<(), StageError>(())
                &&& final(tx).tables.bodies@ == old(tx).tables.bodies@.subrange(
                    cut_from(old(tx).tables.bodies@, input.prune_to as int),
                    old(tx).tables.bodies@.len() as int,
                )
                &&& final(tx).tables.transactions@ == old(tx).tables.transactions@.subrange(
                    tx_cut_at(
                        old(tx).tables.bodies@,
                        old(tx).tables.transactions@,
                        input.prune_to as int,
                    ),
                    old(tx).tables.transactions@.len() as int,
                )
                &&& bodies_cover_txs(final(tx).tables.bodies@, final(tx).tables.transactions@)
            },
            !bodies_cover_txs(old(tx).tables.bodies@, old(tx).tables.transactions@) ==> {
                &&& r == Err::<(), StageError>(StageError::CorruptStore)
                &&& final(tx).tables.bodies@ == old(tx).tables.bodies@
                &&& final(tx).tables.transactions@ == old(tx).tables.transactions@
            },
    {
        if !Self::check_bodies_cover(&tx.tables.bodies, &tx.tables.transactions) {
            return Err(StageError::CorruptStore);
        }
        let ghost bodies0 = tx.tables.bodies@;
        let ghost txs0 = tx.tables.transactions@;
        let c = tx.tables.bodies.index_from(input.prune_to);
        let blen = tx.tables.bodies.len();
        proof {
            lemma_cut_from_bounds(bodies0, input.prune_to as int);
        }
        if c == blen {
            tx.tables.transactions.truncate_from(0);
            tx.tables.bodies.drop_below(input.prune_to);
            proof {
                lemma_cut_from_unique(txs0, 0, 0);
                if bodies_cover_txs(bodies0, txs0) {
                    assert(tx.tables.transactions@ =~= txs0.subrange(
                        tx_cut_at(bodies0, txs0, input.prune_to as int),
                        txs0.len() as int,
                    ));
                    assert(bodies_cover_txs(tx.tables.bodies@, tx.tables.transactions@));
                }
            }
            return Ok(());
        }
        let (_bk, b) = tx.tables.bodies.row(c);
        proof {
            if bodies_cover_txs(bodies0, txs0) {
                lemma_tx_cut_at_stride(bodies0, txs0, c as int);
            }
        }
        tx.tables.transactions.drop_below(b.base_tx_id);
        tx.tables.bodies.drop_below(input.prune_to);
        proof {
            if bodies_cover_txs(bodies0, txs0) {
                let ghost cut = bodies0[c as int].1.base_tx_id - bodies0[0].1.base_tx_id;
                assert(tx.tables.transactions@ =~= txs0.subrange(
                    tx_cut_at(bodies0, txs0, input.prune_to as int),
                    txs0.len() as int,
                ));
                let nb = tx.tables.bodies@;
                let nt = tx.tables.transactions@;
                assert(nb.len() > 0);
                assert(nb[0] == bodies0[c as int]);
                assert forall|i: int|
                    0 <= i < nb.len() - 1 implies (#[trigger] nb[i + 1]).1.base_tx_id == nb[i].1.base_tx_id
                    + nb[i].1.tx_amount by {
                    assert(nb[i + 1] == bodies0[c + i + 1]);
                    assert(nb[i] == bodies0[c + i]);
                    assert(bodies0[(c + i) + 1].1.base_tx_id == bodies0[c + i].1.base_tx_id
                        + bodies0[c + i].1.tx_amount);
                }
                assert(nb.last() == bodies0[bodies0.len() - 1]);
                assert(nt.len() == nb.last().1.base_tx_id + nb.last().1.tx_amount
                    - nb[0].1.base_tx_id);
                assert forall|j: int|
                    0 <= j < nt.len() implies (#[trigger] nt[j]).0 == nb[0].1.base_tx_id + j by {
                    assert(nt[j] == txs0[cut + j]);
                    assert(txs0[cut + j].0 == bodies0[0].1.base_tx_id + (cut + j));
                }
                assert(bodies_cover_txs(nb, nt));
            }
        }
        Ok(())
    }

    /// Decide whether the body strides exactly cover the transaction
    /// table.
    pub fn check_bodies_cover(
        bodies: &crate::table::Table<BodyForStorage>,
        txs: &crate::table::Table<TransactionRecord>,
    ) -> (r: bool)
        ensures
            r == bodies_cover_txs(bodies@, txs@),
    {
        let bl = bodies.len();
        if bl == 0 {
            return txs.len() == 0;
        }
        let mut i: usize = 0;
        while i < bl - 1
            invariant
                bl == bodies@.len(),
                bl >= 1,
                0 <= i <= bl - 1,
                forall|x: int|
                    0 <= x < i ==> (#[trigger] bodies@[x + 1]).1.base_tx_id == bodies@[x].1.base_tx_id
                        + bodies@[x].1.tx_amount,
            decreases bl - i,
        {
            let (_k1, b1) = bodies.row(i);
            let (_k2, b2) = bodies.row(i + 1);
            let expected = match b1.base_tx_id.checked_add(b1.tx_amount) {
                Some(v) => v,
                None => {
                    proof {
                        assert(bodies@[i + 1].1.base_tx_id != bodies@[i as int].1.base_tx_id
                            + bodies@[i as int].1.tx_amount);
                    }
                    return false;
                },
            };
            if b2.base_tx_id != expected {
                proof {
                    assert(bodies@[i + 1].1.base_tx_id != bodies@[i as int].1.base_tx_id
                        + bodies@[i as int].1.tx_amount);
                }
                return false;
            }
            i += 1;
        }
        let (_k0, b0) = bodies.row(0);
        let (_kl, bz) = bodies.row(bl - 1);
        let base0 = b0.base_tx_id;
        let tl = txs.len();
        proof {
            assert forall|x: int|
                0 <= x < bodies@.len() - 1 implies (#[trigger] bodies@[x + 1]).1.base_tx_id
                == bodies@[x].1.base_tx_id + bodies@[x].1.tx_amount by {}
            lemma_stride_lower(bodies@, bl - 1);
        }
        let diff = bz.base_tx_id - base0;
        let expected_len = match diff.checked_add(bz.tx_amount) {
            Some(v) => v,
            None => {
                return false;
            },
        };
        if (tl as u64) != expected_len {
            return false;
        }
        let mut j: usize = 0;
        while j < tl
            invariant
                bl == bodies@.len(),
                tl == txs@.len(),
                bl > 0,
                base0 == bodies@[0].1.base_tx_id,
                0 <= j <= tl,
                forall|x: int| 0 <= x < j ==> (#[trigger] txs@[x]).0 == base0 + x,
            decreases tl - j,
        {
            let (tk, _tv) = txs.row(j);
            let expect = match base0.checked_add(j as u64) {
                Some(v) => v,
                None => {
                    proof {
                        assert(txs@[j as int].0 != bodies@[0].1.base_tx_id + j);
                    }
                    return false;
                },
            };
            if tk != expect {
                proof {
                    assert(txs@[j as int].0 != bodies@[0].1.base_tx_id + j);
                }
                return false;
            }
            j += 1;
        }
        true
    }
}

impl Stage for ConvertBodies {
    open spec fn spec_id(&self) -> StageId {
        StageId::Bodies
    }

    /// An unsorted foreign store is refused; local bodies past the
    /// recorded progress are refused; strides not covering the transaction
    /// table are refused; otherwise the exact import relation holds and
    /// only the body tables change.
    open spec fn execute_spec(
        &self,
        t0: Tables,
        t1: Tables,
        input: StageInput,
        r: Result<ExecOutput, StageError>,
    ) -> bool {
        let h = input.progress_or_genesis();
        if !self.wf() {
            &&& r == Err::<ExecOutput, StageError>(StageError::CorruptSource)
            &&& tables_eqv(t1, t0)
        } else if !keys_at_most(t0.bodies@, h) {
            &&& r == Err::<ExecOutput, StageError>(
                StageError::NonMonotonicProgress { stage: StageId::Bodies },
            )
            &&& tables_eqv(t1, t0)
        } else if !bodies_cover_txs(t0.bodies@, t0.transactions@) {
            &&& r == Err::<ExecOutput, StageError>(StageError::CorruptStore)
            &&& tables_eqv(t1, t0)
        } else {
            &&& bodies_execute_post(*self, t0, t1, h, r)
            &&& t1.canonical@ == t0.canonical@
            &&& t1.headers@ == t0.headers@
            &&& t1.total_difficulty@ == t0.total_difficulty@
            &&& t1.progress@ == t0.progress@
        }
    }

    fn id(&self) -> (r: StageId) {
        StageId::Bodies
    }

    fn execute(&self, tx: &mut RwTx, input: StageInput) -> (r: Result<ExecOutput, StageError>) {
        reveal(bodies_execute_post);
        reveal(bodies_converted);
        if !(self.source.canonical.check_sorted() && self.source.bodies.check_sorted()
            && self.source.transactions.check_sorted()) {
            return Err(StageError::CorruptSource);
        }
        let h: u64 = match input.stage_progress {
            Some(p) => p,
            None => 0,
        };
        if !tx.tables.bodies.check_keys_at_most(h) {
            return Err(StageError::NonMonotonicProgress { stage: StageId::Bodies });
        }
        if !ConvertBodies::check_bodies_cover(&tx.tables.bodies, &tx.tables.transactions) {
            return Err(StageError::CorruptStore);
        }
        ConvertBodies::execute(self, tx, input)
    }

    fn unwind(&self, tx: &mut RwTx, input: UnwindInput) -> (r: Result<UnwindOutput, StageError>) {
        ConvertBodies::unwind(self, tx, input)
    }

    fn prune(&self, tx: &mut RwTx, input: PruningInput) -> (r: Result<(), StageError>) {
        ConvertBodies::prune(self, tx, input)
    }
}


} // verus!
