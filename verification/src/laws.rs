use crate::convert_bodies::{
    bodies_avail, bodies_converted, bodies_execute_post, block_tx_rows, conv_body_rows,
    conv_tx_rows, lemma_bodies_avail_tail, lemma_tx_total_mono, lemma_tx_total_split,
    src_body_at, start_tx_id, tx_total, ConvertBodies,
};
use crate::convert_headers::{
    diverged_at, headers_execute_post, walk_end, walk_start, ConvertHeaders,
};
use crate::db::Tables;
use crate::models::BlockHash;
use crate::stage::{ExecOutput, StageError};
use crate::table::{
    cut_from, keys_sorted, lemma_cut_from_split, lemma_cut_from_unique, seq_get,
};
use vstd::prelude::*;

verus! {

/// Running the header import against a store that is already up to date —
/// nothing past the current progress in the foreign store, no divergence —
/// returns completed progress and leaves every table exactly as it was.
pub proof fn lemma_headers_rerun_noop(
    s: ConvertHeaders,
    loc0: Tables,
    loc1: Tables,
    h: u64,
    r: Result<ExecOutput, StageError>,
)
    requires
        s.wf(),
        headers_execute_post(s, loc0, loc1, h, r),
        !diverged_at(s.source, loc0, h),
        walk_end(s.source.canonical@, h, s.limit(h)) == walk_start(s.source.canonical@, h),
    ensures
        r == Ok::<ExecOutput, StageError>(
            ExecOutput::Progress { stage_progress: h, done: true },
        ),
        loc1.canonical@ == loc0.canonical@,
        loc1.headers@ == loc0.headers@,
        loc1.total_difficulty@ == loc0.total_difficulty@,
{
    reveal(crate::convert_headers::headers_execute_post);
    let i0 = walk_start(s.source.canonical@, h);
    crate::table::lemma_cut_from_split(s.source.canonical@, h + 1);
    match r {
        Ok(ExecOutput::Progress { stage_progress, done }) => {
            assert(loc1.canonical@ =~= loc0.canonical@ + s.source.canonical@.subrange(i0, i0));
            assert(loc1.canonical@ =~= loc0.canonical@);
            assert(loc1.headers@ =~= loc0.headers@);
            assert(loc1.total_difficulty@ =~= loc0.total_difficulty@);
        },
        Ok(ExecOutput::Unwind { .. }) => {
            assert(false);
        },
        Err(e) => {
            assert(false);
        },
    }
}

/// The header import is idempotent: once an unbounded run has finished,
/// the foreign store offers nothing past the reported progress, so a
/// second run returns the same progress and changes no table.
pub proof fn lemma_headers_idempotent(
    s: ConvertHeaders,
    loc0: Tables,
    mid: Tables,
    loc2: Tables,
    h: u64,
    p: u64,
    done: bool,
    r2: Result<ExecOutput, StageError>,
)
    requires
        s.wf(),
        s.max_block is None,
        s.exit_after_progress is None,
        headers_execute_post(
            s,
            loc0,
            mid,
            h,
            Ok(ExecOutput::Progress { stage_progress: p, done }),
        ),
        headers_execute_post(s, mid, loc2, p, r2),
    ensures
        r2 == Ok::<ExecOutput, StageError>(
            ExecOutput::Progress { stage_progress: p, done: true },
        ),
        loc2.canonical@ == mid.canonical@,
        loc2.headers@ == mid.headers@,
        loc2.total_difficulty@ == mid.total_difficulty@,
{
    reveal(crate::convert_headers::headers_execute_post);
    let src_c = s.source.canonical@;
    let n = src_c.len() as int;
    let i0 = walk_start(src_c, h);
    let iend = walk_end(src_c, h, s.limit(h));
    lemma_cut_from_split(src_c, h + 1);
    lemma_cut_from_split(src_c, u64::MAX as int + 1);
    crate::table::lemma_all_keys_below_max(src_c);
    assert(iend == n);
    // Every foreign key is at most the reported progress, so the second
    // walk is empty.
    assert forall|j: int| 0 <= j < n implies src_c[j].0 < p + 1 by {
        if iend > i0 {
            if j < i0 {
                assert(src_c[j].0 < h + 1);
                assert(h <= p);
            } else if j < iend - 1 {
                assert(src_c[j].0 < src_c[iend - 1].0);
            }
        } else {
            assert(src_c[j].0 < h + 1);
            assert(p == h);
        }
    }
    lemma_cut_from_unique(src_c, p + 1, n);
    assert(walk_start(src_c, p) == n);
    assert(walk_end(src_c, p, s.limit(p)) == n);
    // The second run cannot see a divergence at `p`: the first run left
    // the row for `p` identical on both sides.
    assert(!diverged_at(s.source, mid, p)) by {
        if iend > i0 {
            assert(mid.canonical@ == loc0.canonical@ + src_c.subrange(i0, iend));
            assert(mid.canonical@.len() > 0);
            assert(mid.canonical@.last() == src_c[n - 1]);
            assert(src_c[n - 1].0 == p);
            assert(seq_get(mid.canonical@, p) == Some(src_c[n - 1].1));
            assert(src_c.last() == src_c[n - 1]);
            assert(seq_get(src_c, p) == Some(src_c[n - 1].1));
        } else {
            assert(mid.canonical@ =~= loc0.canonical@ + src_c.subrange(i0, i0));
            assert(mid.canonical@ =~= loc0.canonical@);
            assert(p == h);
        }
    }
    lemma_headers_rerun_noop(s, mid, loc2, p, r2);
}

/// Unwinding the canonical rows to `u` and walking forward again rebuilds
/// exactly the rows an uninterrupted forward walk produces: both equal the
/// whole foreign canonical table. The header and total-difficulty rows
/// follow, since they carry the same keys.
pub proof fn lemma_headers_unwind_then_forward(
    src_c: Seq<(u64, BlockHash)>,
    loc_c: Seq<(u64, BlockHash)>,
    h: u64,
    u: u64,
)
    requires
        keys_sorted(src_c),
        loc_c == src_c.subrange(0, cut_from(src_c, h + 1)),
        u <= h,
    ensures
        loc_c.subrange(0, cut_from(loc_c, u + 1)) + src_c.subrange(
            cut_from(src_c, u + 1),
            src_c.len() as int,
        ) == loc_c + src_c.subrange(cut_from(src_c, h + 1), src_c.len() as int),
{
    lemma_cut_from_split(src_c, h + 1);
    lemma_cut_from_split(src_c, u + 1);
    let ch = cut_from(src_c, h + 1);
    let cu = cut_from(src_c, u + 1);
    assert(cu <= ch) by {
        crate::table::lemma_cut_from_monotone(src_c, u + 1, h + 1);
    }
    assert(cut_from(loc_c, u + 1) == cu) by {
        assert forall|j: int| 0 <= j < cu implies loc_c[j].0 < u + 1 by {
            assert(loc_c[j] == src_c[j]);
        }
        assert(keys_sorted(loc_c)) by {
            assert forall|x: int, y: int|
                0 <= x < y < loc_c.len() implies loc_c[x].0 < loc_c[y].0 by {
                assert(loc_c[x] == src_c[x] && loc_c[y] == src_c[y]);
            }
        }
        if cu < loc_c.len() {
            assert(loc_c[cu] == src_c[cu]);
        }
        lemma_cut_from_unique(loc_c, u + 1, cu);
    }
    assert(loc_c.subrange(0, cu) + src_c.subrange(cu, src_c.len() as int) =~= src_c);
    assert(loc_c + src_c.subrange(ch, src_c.len() as int) =~= src_c);
}

/// Running the body import when every available block is already
/// converted — no body in the foreign store for the next canonical entry —
/// returns completed progress and leaves the body and transaction tables
/// exactly as they were.
pub proof fn lemma_bodies_rerun_noop(
    s: ConvertBodies,
    loc0: Tables,
    loc1: Tables,
    h: u64,
    r: Result<ExecOutput, StageError>,
)
    requires
        s.wf(),
        bodies_execute_post(s, loc0, loc1, h, r),
        !diverged_at(s.source, loc0, h),
        seq_get(loc0.bodies@, h) is Some,
        seq_get(loc0.bodies@, h).unwrap().base_tx_id + seq_get(
            loc0.bodies@,
            h,
        ).unwrap().tx_amount <= u64::MAX,
        bodies_avail(s.source, loc0.canonical@, cut_from(loc0.canonical@, h + 1)) == 0,
    ensures
        r == Ok::<ExecOutput, StageError>(
            ExecOutput::Progress { stage_progress: h, done: true },
        ),
        loc1.bodies@ == loc0.bodies@,
        loc1.transactions@ == loc0.transactions@,
{
    reveal(crate::convert_bodies::bodies_execute_post);
    reveal(crate::convert_bodies::bodies_converted);
    let loc_c = loc0.canonical@;
    let l0 = cut_from(loc_c, h + 1);
    match r {
        Ok(ExecOutput::Progress { stage_progress, done }) => {
            let m = choose|m: int|
                bodies_converted(s, loc0, loc1, h, stage_progress, done, m);
            assert(m == 0);
            assert(loc1.bodies@ =~= loc0.bodies@ + conv_body_rows(
                s.source,
                loc_c,
                l0,
                start_tx_id(loc0, h),
                0,
            ));
            assert(loc1.bodies@ =~= loc0.bodies@);
            assert(loc1.transactions@ =~= loc0.transactions@);
            assert(done);
        },
        Ok(ExecOutput::Unwind { .. }) => {
            assert(false);
        },
        Err(e) => {
            assert(false);
        },
    }
}

/// The body import is idempotent: once a run has finished, no block past
/// the reported progress has a body in the foreign store, so a second run
/// that passes the divergence check converts nothing and changes no table.
pub proof fn lemma_bodies_idempotent(
    s: ConvertBodies,
    loc0: Tables,
    mid: Tables,
    loc2: Tables,
    h: u64,
    p: u64,
    r2: Result<ExecOutput, StageError>,
)
    requires
        s.wf(),
        keys_sorted(loc0.canonical@),
        bodies_execute_post(
            s,
            loc0,
            mid,
            h,
            Ok(ExecOutput::Progress { stage_progress: p, done: true }),
        ),
        mid.canonical@ == loc0.canonical@,
        !diverged_at(s.source, mid, p),
        seq_get(mid.bodies@, p) matches Some(pb) && pb.base_tx_id + pb.tx_amount <= u64::MAX,
        bodies_execute_post(s, mid, loc2, p, r2),
    ensures
        r2 == Ok::<ExecOutput, StageError>(
            ExecOutput::Progress { stage_progress: p, done: true },
        ),
        loc2.bodies@ == mid.bodies@,
        loc2.transactions@ == mid.transactions@,
{
    reveal(crate::convert_bodies::bodies_execute_post);
    reveal(crate::convert_bodies::bodies_converted);
    let loc_c = loc0.canonical@;
    let l0 = cut_from(loc_c, h + 1);
    lemma_cut_from_split(loc_c, h + 1);
    let m = choose|m: int| bodies_converted(s, loc0, mid, h, p, true, m);
    assert(m == bodies_avail(s.source, loc_c, l0));
    if m > 0 {
        assert(p == loc_c[l0 + m - 1].0);
        crate::convert_bodies::lemma_bodies_avail_le_len(s.source, loc_c, l0);
        assert forall|j: int| 0 <= j < l0 + m implies loc_c[j].0 < p + 1 by {
            if j < l0 {
                assert(loc_c[j].0 < h + 1);
                assert(h <= p);
            } else if j < l0 + m - 1 {
                assert(loc_c[j].0 < loc_c[l0 + m - 1].0);
            }
        }
        if l0 + m < loc_c.len() {
            assert(loc_c[l0 + m - 1].0 < loc_c[l0 + m].0);
        }
        lemma_cut_from_unique(loc_c, p + 1, l0 + m);
        lemma_bodies_avail_tail(s.source, loc_c, l0, m);
        assert(bodies_avail(s.source, mid.canonical@, cut_from(mid.canonical@, p + 1)) == 0);
    } else {
        assert(p == h);
        lemma_bodies_avail_tail(s.source, loc_c, l0, 0);
        assert(bodies_avail(s.source, mid.canonical@, cut_from(mid.canonical@, p + 1)) == 0);
    }
    lemma_bodies_rerun_noop(s, mid, loc2, p, r2);
}

/// Unwinding the body conversion and walking forward again rebuilds
/// exactly the rows an uninterrupted conversion produces: keeping the
/// first `k` converted blocks and re-running with the transaction ids
/// continuing from their end yields the same body and transaction rows as
/// converting all `m` blocks in one go. The continuation id is what the
/// stride of the last kept body ends at, which is where a restart after an
/// unwind picks up.
pub proof fn lemma_bodies_unwind_then_forward(
    src: Tables,
    loc_c: Seq<(u64, BlockHash)>,
    l0: int,
    s0: u64,
    k: int,
    m: int,
)
    requires
        0 <= k <= m,
        s0 + tx_total(src, loc_c, l0, m) <= u64::MAX,
    ensures
        conv_body_rows(src, loc_c, l0, s0, m) == conv_body_rows(src, loc_c, l0, s0, k)
            + conv_body_rows(
            src,
            loc_c,
            l0 + k,
            (s0 + tx_total(src, loc_c, l0, k)) as u64,
            m - k,
        ),
        conv_tx_rows(src, loc_c, l0, s0, m) == conv_tx_rows(src, loc_c, l0, s0, k)
            + conv_tx_rows(
            src,
            loc_c,
            l0 + k,
            (s0 + tx_total(src, loc_c, l0, k)) as u64,
            m - k,
        ),
    decreases m - k,
{
    lemma_tx_total_mono(src, loc_c, l0, 0, k);
    lemma_tx_total_mono(src, loc_c, l0, k, m);
    let s0k = (s0 + tx_total(src, loc_c, l0, k)) as u64;
    assert(s0k == s0 + tx_total(src, loc_c, l0, k));
    if m == k {
        assert(conv_body_rows(src, loc_c, l0 + k, s0k, 0) =~= Seq::<(
            u64,
            crate::models::BodyForStorage,
        )>::empty());
        assert(conv_tx_rows(src, loc_c, l0 + k, s0k, 0) =~= Seq::<(
            u64,
            crate::models::TransactionRecord,
        )>::empty());
        assert(conv_body_rows(src, loc_c, l0, s0, m) =~= conv_body_rows(src, loc_c, l0, s0, k)
            + conv_body_rows(src, loc_c, l0 + k, s0k, 0));
        assert(conv_tx_rows(src, loc_c, l0, s0, m) =~= conv_tx_rows(src, loc_c, l0, s0, k)
            + conv_tx_rows(src, loc_c, l0 + k, s0k, 0));
    } else {
        lemma_tx_total_mono(src, loc_c, l0, m - 1, m);
        lemma_bodies_unwind_then_forward(src, loc_c, l0, s0, k, m - 1);
        lemma_tx_total_split(src, loc_c, l0, k, m - 1 - k);
        lemma_tx_total_split(src, loc_c, l0, k, m - k);
        // The block appended last is the same on both sides: same body,
        // same continuation id.
        assert(src_body_at(src, loc_c, l0 + m - 1) == src_body_at(
            src,
            loc_c,
            (l0 + k) + (m - k) - 1,
        ));
        assert(block_tx_rows(src, loc_c, l0 + k, s0k, m - 1 - k) =~= block_tx_rows(
            src,
            loc_c,
            l0,
            s0,
            m - 1,
        ));
        assert(conv_tx_rows(src, loc_c, l0 + k, s0k, m - k) == conv_tx_rows(
            src,
            loc_c,
            l0 + k,
            s0k,
            m - 1 - k,
        ) + block_tx_rows(src, loc_c, l0 + k, s0k, m - 1 - k));
        assert(conv_tx_rows(src, loc_c, l0, s0, m) =~= conv_tx_rows(src, loc_c, l0, s0, k)
            + conv_tx_rows(src, loc_c, l0 + k, s0k, m - k));
        assert(conv_body_rows(src, loc_c, l0, s0, m) =~= conv_body_rows(src, loc_c, l0, s0, k)
            + conv_body_rows(src, loc_c, l0 + k, s0k, m - k)) by {
            assert forall|x: int| 0 <= x < m implies conv_body_rows(src, loc_c, l0, s0, m)[x]
                == (conv_body_rows(src, loc_c, l0, s0, k) + conv_body_rows(
                src,
                loc_c,
                l0 + k,
                s0k,
                m - k,
            ))[x] by {
                if x >= k {
                    lemma_tx_total_split(src, loc_c, l0, k, x - k);
                    lemma_tx_total_mono(src, loc_c, l0, x, m);
                    assert(src_body_at(src, loc_c, (l0 + k) + (x - k)) == src_body_at(
                        src,
                        loc_c,
                        l0 + x,
                    ));
                } else {
                    lemma_tx_total_mono(src, loc_c, l0, x, m);
                }
            }
        }
    }
}

} // verus!
