use crate::db::{tables_eqv, RwTx, Tables};
use crate::models::{BlockHash, Header};
use crate::stage::{
    ExecOutput, PruningInput, Stage, StageError, StageInput, UnwindInput, UnwindOutput,
};
use crate::stage_id::StageId;
use crate::table::{
    cut_from, keys_at_most, keys_sorted, lemma_all_keys_below_max, lemma_cut_from_monotone,
    lemma_cut_from_split, lemma_cut_from_unique, seq_get,
};
use vstd::prelude::*;

verus! {

/// The index in the foreign canonical table where a forward walk from
/// progress `h` starts: the first row past block `h`.
pub open spec fn walk_start(src_c: Seq<(u64, BlockHash)>, h: u64) -> int {
    cut_from(src_c, h + 1)
}

/// The index where a forward walk from progress `h` stops: the first row
/// past the limit, never before the start.
pub open spec fn walk_end(src_c: Seq<(u64, BlockHash)>, h: u64, limit: int) -> int {
    let i0 = cut_from(src_c, h + 1);
    let i1 = cut_from(src_c, limit + 1);
    if i1 < i0 {
        i0
    } else {
        i1
    }
}

/// The foreign store holds, for the canonical entry at index `j`, a header
/// row whose hash matches the canonical hash and a total-difficulty row.
pub open spec fn src_row_ok(src: Tables, j: int) -> bool {
    let bn = src.canonical@[j].0;
    let hash = src.canonical@[j].1;
    &&& seq_get(src.headers@, bn) matches Some(hd) && hd.hash == hash
    &&& seq_get(src.total_difficulty@, bn) is Some
}

/// The header row that conversion appends for the canonical entry at `j`.
pub open spec fn src_header_row(src: Tables, j: int) -> (u64, Header) {
    (src.canonical@[j].0, seq_get(src.headers@, src.canonical@[j].0).unwrap())
}

/// The total-difficulty row that conversion appends for the canonical entry
/// at `j`.
pub open spec fn src_td_row(src: Tables, j: int) -> (u64, u64) {
    (src.canonical@[j].0, seq_get(src.total_difficulty@, src.canonical@[j].0).unwrap())
}

/// The two stores disagree about the canonical hash at block `h` (either
/// may lack the row).
pub open spec fn diverged_at(src: Tables, loc: Tables, h: u64) -> bool {
    seq_get(src.canonical@, h) != seq_get(loc.canonical@, h)
}

/// Everything a successful or failed forward call of `ConvertHeaders` may
/// do, as a relation between the tables before and after.
#[verifier::opaque]
pub open spec fn headers_execute_post(
    stage: ConvertHeaders,
    loc0: Tables,
    loc1: Tables,
    h: u64,
    r: Result<ExecOutput, StageError>,
) -> bool {
    let src = stage.source;
    let i0 = walk_start(src.canonical@, h);
    let iend = walk_end(src.canonical@, h, stage.limit(h));
    match r {
        Ok(ExecOutput::Progress { stage_progress, done }) => {
            &&& !diverged_at(src, loc0, h)
            &&& done
            &&& forall|j: int| i0 <= j < iend ==> src_row_ok(src, j)
            &&& loc1.canonical@ == loc0.canonical@ + src.canonical@.subrange(i0, iend)
            &&& loc1.headers@ == loc0.headers@ + Seq::new(
                (iend - i0) as nat,
                |j: int| src_header_row(src, i0 + j),
            )
            &&& loc1.total_difficulty@ == loc0.total_difficulty@ + Seq::new(
                (iend - i0) as nat,
                |j: int| src_td_row(src, i0 + j),
            )
            &&& stage_progress == if iend > i0 {
                src.canonical@[iend - 1].0
            } else {
                h
            }
            &&& stage_progress >= h
        },
        Ok(ExecOutput::Unwind { unwind_to }) => {
            &&& diverged_at(src, loc0, h)
            &&& h > 0
            &&& unwind_to == h - 1
            &&& tables_eqv(loc1, loc0)
        },
        Err(StageError::UnwindPastGenesis) => {
            &&& diverged_at(src, loc0, h)
            &&& h == 0
            &&& tables_eqv(loc1, loc0)
        },
        Err(StageError::MissingHeader { block }) => {
            &&& !diverged_at(src, loc0, h)
            &&& seq_get(src.headers@, block) is None
            &&& exists|j: int| i0 <= j < iend && src.canonical@[j].0 == block && !src_row_ok(src, j)
        },
        Err(StageError::HeaderHashMismatch { block }) => {
            &&& !diverged_at(src, loc0, h)
            &&& exists|j: int| i0 <= j < iend && src.canonical@[j].0 == block && !src_row_ok(src, j)
        },
        Err(StageError::MissingTotalDifficulty { block }) => {
            &&& !diverged_at(src, loc0, h)
            &&& seq_get(src.total_difficulty@, block) is None
            &&& exists|j: int| i0 <= j < iend && src.canonical@[j].0 == block && !src_row_ok(src, j)
        },
        _ => false,
    }
}

/// Import stage for canonical headers: walks the foreign store's canonical
/// table from the current progress forward and appends the canonical hash,
/// header and total-difficulty rows into the local tables in key order. A
/// disagreement at the current progress asks the pipeline to unwind by one
/// block; a disagreement at genesis is fatal.
pub struct ConvertHeaders {
    /// Snapshot of the foreign store read during conversion.
    pub source: Tables,
    /// Upper bound on the blocks to sync.
    pub max_block: Option<u64>,
    /// Cap on blocks converted per call, counted from the progress at
    /// entry.
    pub exit_after_progress: Option<u64>,
}

impl ConvertHeaders {
    /// The tables this stage reads from the foreign store are sorted.
    pub open spec fn wf(&self) -> bool {
        &&& keys_sorted(self.source.canonical@)
        &&& keys_sorted(self.source.headers@)
        &&& keys_sorted(self.source.total_difficulty@)
    }

    /// The highest block number a call entered at progress `h` may
    /// convert.
    pub open spec fn limit(&self, h: u64) -> int {
        let mb: int = match self.max_block {
            Some(m) => m as int,
            None => u64::MAX as int,
        };
        let ic: int = match self.exit_after_progress {
            Some(c) => h + c,
            None => u64::MAX as int,
        };
        if mb <= ic {
            mb
        } else {
            ic
        }
    }

    pub fn new(source: Tables, max_block: Option<u64>, exit_after_progress: Option<u64>) -> (r:
        ConvertHeaders)
        ensures
            r.source == source,
            r.max_block == max_block,
            r.exit_after_progress == exit_after_progress,
    {
        ConvertHeaders { source, max_block, exit_after_progress }
    }

    /// Forward conversion. Appends every foreign canonical row past the
    /// current progress, up to the configured limit, together with its
    /// header and total-difficulty rows; leaves every other table alone.
    pub fn execute(&self, tx: &mut RwTx, input: StageInput) -> (r: Result<ExecOutput, StageError>)
        requires
            old(tx).tables.wf(),
            self.wf(),
            keys_at_most(old(tx).tables.canonical@, input.progress_or_genesis()),
            keys_at_most(old(tx).tables.headers@, input.progress_or_genesis()),
            keys_at_most(old(tx).tables.total_difficulty@, input.progress_or_genesis()),
        ensures
            final(tx).tables.wf(),
            final(tx).tables.bodies@ == old(tx).tables.bodies@,
            final(tx).tables.transactions@ == old(tx).tables.transactions@,
            final(tx).tables.progress@ == old(tx).tables.progress@,
            headers_execute_post(
                *self,
                old(tx).tables,
                final(tx).tables,
                input.progress_or_genesis(),
                r,
            ),
    {
        reveal(headers_execute_post);
        let h: u64 = match input.stage_progress {
            Some(p) => p,
            None => 0,
        };
        let ghost src_c = self.source.canonical@;
        let ghost lim = self.limit(h);

        let src_at_h = self.source.canonical.get(h);
        let loc_at_h = tx.tables.canonical.get(h);
        let same = match (&src_at_h, &loc_at_h) {
            (Option::None, Option::None) => true,
            (Option::Some(a), Option::Some(b)) => *a == *b,
            _ => false,
        };
        if !same {
            if h == 0 {
                return Err(StageError::UnwindPastGenesis);
            }
            return Ok(ExecOutput::Unwind { unwind_to: h - 1 });
        }

        if h == u64::MAX {
            proof {
                lemma_cut_from_unique(src_c, h + 1, src_c.len() as int);
                lemma_cut_from_monotone(src_c, lim + 1, h + 1);
                assert(tx.tables.canonical@ =~= tx.tables.canonical@ + src_c.subrange(
                    src_c.len() as int,
                    src_c.len() as int,
                ));
                assert(tx.tables.headers@ =~= tx.tables.headers@ + Seq::new(
                    0nat,
                    |j: int| src_header_row(self.source, src_c.len() + j),
                ));
                assert(tx.tables.total_difficulty@ =~= tx.tables.total_difficulty@ + Seq::new(
                    0nat,
                    |j: int| src_td_row(self.source, src_c.len() + j),
                ));
            }
            return Ok(ExecOutput::Progress { stage_progress: h, done: true });
        }

        let ghost t0 = old(tx).tables;
        let n = self.source.canonical.len();
        let mut i: usize = self.source.canonical.index_from(h + 1);
        let ghost i0 = i as int;
        let mut highest: u64 = h;
        let mut over_limit = false;
        proof {
            lemma_cut_from_split(src_c, h + 1);
        }
        while i < n && !over_limit
            invariant
                self.wf(),
                tx.tables.wf(),
                t0 == old(tx).tables,
                h == input.progress_or_genesis(),
                h < u64::MAX,
                !diverged_at(self.source, t0, h),
                n == src_c.len(),
                src_c == self.source.canonical@,
                lim == self.limit(h),
                i0 == cut_from(src_c, h + 1),
                i0 <= i <= n,
                tx.tables.bodies@ == t0.bodies@,
                tx.tables.transactions@ == t0.transactions@,
                tx.tables.progress@ == t0.progress@,
                keys_at_most(t0.canonical@, h),
                keys_at_most(t0.headers@, h),
                keys_at_most(t0.total_difficulty@, h),
                forall|j: int| i0 <= j < i ==> #[trigger] src_c[j].0 <= lim,
                forall|j: int| i0 <= j < i ==> src_row_ok(self.source, j),
                tx.tables.canonical@ == t0.canonical@ + src_c.subrange(i0, i as int),
                tx.tables.headers@ == t0.headers@ + Seq::new(
                    (i - i0) as nat,
                    |j: int| src_header_row(self.source, i0 + j),
                ),
                tx.tables.total_difficulty@ == t0.total_difficulty@ + Seq::new(
                    (i - i0) as nat,
                    |j: int| src_td_row(self.source, i0 + j),
                ),
                highest == if i > i0 {
                    src_c[i - 1].0
                } else {
                    h
                },
                h <= highest,
                over_limit ==> i < n && src_c[i as int].0 > lim,
            decreases n - i + if over_limit {
                0int
            } else {
                1int
            },
        {
            reveal(headers_execute_post);
            let (bn, hash) = self.source.canonical.row(i);
            proof {
                lemma_cut_from_split(src_c, h + 1);
                assert(bn >= h + 1);
            }
            let over_max = match self.max_block {
                Some(mb) => bn > mb,
                None => false,
            };
            let over_cap = match self.exit_after_progress {
                Some(c) => bn - h > c,
                None => false,
            };
            if over_max || over_cap {
                over_limit = true;
            } else {
                let hd = match self.source.headers.get(bn) {
                    Some(hd) => hd,
                    None => {
                        proof {
                            assert(src_c[i as int].0 == bn && src_c[i as int].0 <= lim);
                            assert(i < walk_end(src_c, h, lim)) by {
                                lemma_cut_from_split(src_c, lim + 1);
                            }
                            assert(!src_row_ok(self.source, i as int));
                            assert(exists|j: int|
                                walk_start(src_c, h) <= j < walk_end(src_c, h, lim)
                                    && self.source.canonical@[j].0 == bn && !src_row_ok(
                                    self.source,
                                    j,
                                )) by {
                                assert(walk_start(src_c, h) <= i as int
                                    && (i as int) < walk_end(src_c, h, lim)
                                    && self.source.canonical@[i as int].0 == bn && !src_row_ok(
                                    self.source,
                                    i as int,
                                ));
                            }
                        }
                        return Err(StageError::MissingHeader { block: bn });
                    },
                };
                if !(hd.hash == hash) {
                    proof {
                        assert(src_c[i as int].0 == bn && src_c[i as int].1 == hash);
                        assert(src_c[i as int].0 <= lim);
                        assert(i < walk_end(src_c, h, lim)) by {
                            lemma_cut_from_split(src_c, lim + 1);
                        }
                        assert(seq_get(self.source.headers@, bn) == Some(hd));
                        assert(!src_row_ok(self.source, i as int));
                        assert(exists|j: int|
                            walk_start(src_c, h) <= j < walk_end(src_c, h, lim)
                                && self.source.canonical@[j].0 == bn && !src_row_ok(
                                self.source,
                                j,
                            )) by {
                            assert(walk_start(src_c, h) <= i as int
                                && (i as int) < walk_end(src_c, h, lim)
                                && self.source.canonical@[i as int].0 == bn && !src_row_ok(
                                self.source,
                                i as int,
                            ));
                        }
                    }
                    return Err(StageError::HeaderHashMismatch { block: bn });
                }
                let td = match self.source.total_difficulty.get(bn) {
                    Some(td) => td,
                    None => {
                        proof {
                            assert(src_c[i as int].0 == bn && src_c[i as int].0 <= lim);
                            assert(i < walk_end(src_c, h, lim)) by {
                                lemma_cut_from_split(src_c, lim + 1);
                            }
                            assert(!src_row_ok(self.source, i as int));
                            assert(exists|j: int|
                                walk_start(src_c, h) <= j < walk_end(src_c, h, lim)
                                    && self.source.canonical@[j].0 == bn && !src_row_ok(
                                    self.source,
                                    j,
                                )) by {
                                assert(walk_start(src_c, h) <= i as int
                                    && (i as int) < walk_end(src_c, h, lim)
                                    && self.source.canonical@[i as int].0 == bn && !src_row_ok(
                                    self.source,
                                    i as int,
                                ));
                            }
                        }
                        return Err(StageError::MissingTotalDifficulty { block: bn });
                    },
                };
                proof {
                    if i > i0 {
                        assert(tx.tables.canonical@.last() == src_c[i - 1]);
                        assert(src_c[i - 1].0 < src_c[i as int].0);
                    } else {
                        if tx.tables.canonical@.len() > 0 {
                            assert(tx.tables.canonical@.last() == t0.canonical@.last());
                            assert(t0.canonical@.last().0 <= h);
                        }
                    }
                    if tx.tables.headers@.len() > 0 {
                        if i > i0 {
                            assert(tx.tables.headers@.last().0 == src_c[i - 1].0);
                        } else {
                            assert(tx.tables.headers@.last().0 <= h);
                        }
                    }
                    if tx.tables.total_difficulty@.len() > 0 {
                        if i > i0 {
                            assert(tx.tables.total_difficulty@.last().0 == src_c[i - 1].0);
                        } else {
                            assert(tx.tables.total_difficulty@.last().0 <= h);
                        }
                    }
                }
                tx.tables.canonical.append(bn, hash);
                tx.tables.headers.append(bn, hd);
                tx.tables.total_difficulty.append(bn, td);
                highest = bn;
                i += 1;
                proof {
                    assert(tx.tables.canonical@ =~= t0.canonical@ + src_c.subrange(i0, i as int));
                    assert(tx.tables.headers@ =~= t0.headers@ + Seq::new(
                        (i - i0) as nat,
                        |j: int| src_header_row(self.source, i0 + j),
                    ));
                    assert(tx.tables.total_difficulty@ =~= t0.total_difficulty@ + Seq::new(
                        (i - i0) as nat,
                        |j: int| src_td_row(self.source, i0 + j),
                    ));
                }
            }
        }
        reveal(headers_execute_post);
        proof {
            lemma_cut_from_split(src_c, h + 1);
            if over_limit {
                if lim < h {
                    assert(i == i0) by {
                        if i > i0 {
                            assert(src_c[i0].0 <= lim);
                            assert(src_c[i0].0 >= h + 1);
                        }
                    }
                    lemma_cut_from_monotone(src_c, lim + 1, h + 1);
                } else {
                    assert forall|j: int| 0 <= j < i implies src_c[j].0 < lim + 1 by {
                        if j < i0 {
                            assert(src_c[j].0 < h + 1);
                        } else {
                            assert(src_c[j].0 <= lim);
                        }
                    }
                    lemma_cut_from_unique(src_c, lim + 1, i as int);
                }
            } else {
                if lim < h {
                    assert(i == i0) by {
                        if i > i0 {
                            assert(src_c[i0].0 <= lim);
                            assert(src_c[i0].0 >= h + 1);
                        }
                    }
                    lemma_cut_from_monotone(src_c, lim + 1, h + 1);
                } else {
                    assert forall|j: int| 0 <= j < n implies src_c[j].0 < lim + 1 by {
                        if j < i0 {
                            assert(src_c[j].0 < h + 1);
                        } else {
                            assert(src_c[j].0 <= lim);
                        }
                    }
                    lemma_cut_from_unique(src_c, lim + 1, n as int);
                }
            }
            assert(i == walk_end(src_c, h, lim));
        }
        Ok(ExecOutput::Progress { stage_progress: highest, done: true })
    }

    /// Remove every canonical, header and total-difficulty row above the
    /// unwind target.
    pub fn unwind(&self, tx: &mut RwTx, input: UnwindInput) -> (r: Result<
        UnwindOutput,
        StageError,
    >)
        requires
            old(tx).tables.wf(),
        ensures
            final(tx).tables.wf(),
            final(tx).tables.canonical@ == old(tx).tables.canonical@.subrange(
                0,
                cut_from(old(tx).tables.canonical@, input.unwind_to + 1),
            ),
            final(tx).tables.headers@ == old(tx).tables.headers@.subrange(
                0,
                cut_from(old(tx).tables.headers@, input.unwind_to + 1),
            ),
            final(tx).tables.total_difficulty@ == old(tx).tables.total_difficulty@.subrange(
                0,
                cut_from(old(tx).tables.total_difficulty@, input.unwind_to + 1),
            ),
            final(tx).tables.bodies@ == old(tx).tables.bodies@,
            final(tx).tables.transactions@ == old(tx).tables.transactions@,
            final(tx).tables.progress@ == old(tx).tables.progress@,
            r == Ok::<UnwindOutput, StageError>(
                UnwindOutput { stage_progress: input.unwind_to },
            ),
    {
        if input.unwind_to < u64::MAX {
            let k = input.unwind_to + 1;
            tx.tables.canonical.truncate_from(k);
            tx.tables.headers.truncate_from(k);
            tx.tables.total_difficulty.truncate_from(k);
        } else {
            proof {
                lemma_all_keys_below_max(tx.tables.canonical@);
                lemma_all_keys_below_max(tx.tables.headers@);
                lemma_all_keys_below_max(tx.tables.total_difficulty@);
            }
        }
        Ok(UnwindOutput { stage_progress: input.unwind_to })
    }

    /// Drop every canonical, header and total-difficulty row strictly below
    /// the prune target.
    pub fn prune(&self, tx: &mut RwTx, input: PruningInput) -> (r: Result<(), StageError>)
        requires
            old(tx).tables.wf(),
        ensures
            final(tx).tables.wf(),
            final(tx).tables.canonical@ == old(tx).tables.canonical@.subrange(
                cut_from(old(tx).tables.canonical@, input.prune_to as int),
                old(tx).tables.canonical@.len() as int,
            ),
            final(tx).tables.headers@ == old(tx).tables.headers@.subrange(
                cut_from(old(tx).tables.headers@, input.prune_to as int),
                old(tx).tables.headers@.len() as int,
            ),
            final(tx).tables.total_difficulty@ == old(tx).tables.total_difficulty@.subrange(
                cut_from(old(tx).tables.total_difficulty@, input.prune_to as int),
                old(tx).tables.total_difficulty@.len() as int,
            ),
            final(tx).tables.bodies@ == old(tx).tables.bodies@,
            final(tx).tables.transactions@ == old(tx).tables.transactions@,
            final(tx).tables.progress@ == old(tx).tables.progress@,
            r == Ok::<(), StageError>(()),
    {
        tx.tables.canonical.drop_below(input.prune_to);
        tx.tables.headers.drop_below(input.prune_to);
        tx.tables.total_difficulty.drop_below(input.prune_to);
        Ok(())
    }
}

impl Stage for ConvertHeaders {
    open spec fn spec_id(&self) -> StageId {
        StageId::Headers
    }

    /// An unsorted foreign store is refused; local rows past the recorded
    /// progress are refused; otherwise the exact import relation holds and
    /// only the header tables change.
    open spec fn execute_spec(
        &self,
        t0: Tables,
        t1: Tables,
        input: StageInput,
        r: Result<ExecOutput, StageError>,
    ) -> bool {
        let h = input.progress_or_genesis();
        if !self.wf() {
            &&& r == Err::<ExecOutput, StageError>(StageError::CorruptSource)
            &&& tables_eqv(t1, t0)
        } else if !(keys_at_most(t0.canonical@, h) && keys_at_most(t0.headers@, h)
            && keys_at_most(t0.total_difficulty@, h)) {
            &&& r == Err::<ExecOutput, StageError>(
                StageError::NonMonotonicProgress { stage: StageId::Headers },
            )
            &&& tables_eqv(t1, t0)
        } else {
            &&& headers_execute_post(*self, t0, t1, h, r)
            &&& t1.bodies@ == t0.bodies@
            &&& t1.transactions@ == t0.transactions@
            &&& t1.progress@ == t0.progress@
        }
    }

    fn id(&self) -> (r: StageId) {
        StageId::Headers
    }

    fn execute(&self, tx: &mut RwTx, input: StageInput) -> (r: Result<ExecOutput, StageError>) {
        reveal(headers_execute_post);
        if !(self.source.canonical.check_sorted() && self.source.headers.check_sorted()
            && self.source.total_difficulty.check_sorted()) {
            return Err(StageError::CorruptSource);
        }
        let h: u64 = match input.stage_progress {
            Some(p) => p,
            None => 0,
        };
        if !(tx.tables.canonical.check_keys_at_most(h) && tx.tables.headers.check_keys_at_most(h)
            && tx.tables.total_difficulty.check_keys_at_most(h)) {
            return Err(StageError::NonMonotonicProgress { stage: StageId::Headers });
        }
        ConvertHeaders::execute(self, tx, input)
    }

    fn unwind(&self, tx: &mut RwTx, input: UnwindInput) -> (r: Result<UnwindOutput, StageError>) {
        ConvertHeaders::unwind(self, tx, input)
    }

    fn prune(&self, tx: &mut RwTx, input: PruningInput) -> (r: Result<(), StageError>) {
        ConvertHeaders::prune(self, tx, input)
    }
}

} // verus!
