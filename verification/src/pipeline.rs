use crate::convert_bodies::{
    bodies_avail, bodies_converted, bodies_cover_txs, conv_body_rows, ConvertBodies,
};
use crate::convert_headers::{diverged_at, walk_end, walk_start, ConvertHeaders};
use crate::db::{tables_eqv, Db, RwTx, Tables};
use crate::finish::FinishStage;
use crate::progress::prog_get;
use crate::stage::{ExecOutput, PruningInput, StageError, StageInput, UnwindInput};
use crate::stage_id::StageId;
use crate::table::{cut_from, keys_at_most, seq_get};
use vstd::prelude::*;

verus! {

/// The stages a pipeline can drive, as a closed set. Dispatch goes to the
/// stage's own verified operations.
pub enum PipelineStage {
    Headers(ConvertHeaders),
    Bodies(ConvertBodies),
    Finish(FinishStage),
}

impl PipelineStage {
    pub open spec fn wf(&self) -> bool {
        match self {
            PipelineStage::Headers(s) => s.wf(),
            PipelineStage::Bodies(s) => s.wf(),
            PipelineStage::Finish(_) => true,
        }
    }

    pub open spec fn spec_id(&self) -> StageId {
        match self {
            PipelineStage::Headers(_) => StageId::Headers,
            PipelineStage::Bodies(_) => StageId::Bodies,
            PipelineStage::Finish(_) => StageId::Finish,
        }
    }

    /// The pipeline keeps its stages in this fixed order.
    pub open spec fn rank(&self) -> int {
        match self {
            PipelineStage::Headers(_) => 0,
            PipelineStage::Bodies(_) => 1,
            PipelineStage::Finish(_) => 2,
        }
    }

    pub fn id(&self) -> (r: StageId)
        ensures
            r == self.spec_id(),
    {
        match self {
            PipelineStage::Headers(_) => StageId::Headers,
            PipelineStage::Bodies(_) => StageId::Bodies,
            PipelineStage::Finish(_) => StageId::Finish,
        }
    }
}

/// The recorded progress of a stage, with genesis standing in for a stage
/// that has never run.
pub open spec fn prog0(t: Tables, id: StageId) -> u64 {
    match prog_get(t.progress@, id) {
        Some(p) => p,
        None => 0,
    }
}

/// The invariant every committed store satisfies: tables sorted, no row
/// keyed past its owning stage's recorded progress, and the body strides
/// covering the transaction table exactly.
pub open spec fn pipe_tables_inv(t: Tables) -> bool {
    &&& t.wf()
    &&& keys_at_most(t.canonical@, prog0(t, StageId::Headers))
    &&& keys_at_most(t.headers@, prog0(t, StageId::Headers))
    &&& keys_at_most(t.total_difficulty@, prog0(t, StageId::Headers))
    &&& keys_at_most(t.bodies@, prog0(t, StageId::Bodies))
    &&& bodies_cover_txs(t.bodies@, t.transactions@)
}

/// No stage has run past the stage before it.
pub open spec fn progress_chain(stages: Seq<PipelineStage>, t: Tables) -> bool {
    forall|i: int|
        0 <= i < stages.len() - 1 ==> prog0(t, (#[trigger] stages[i + 1]).spec_id()) <= prog0(
            t,
            stages[i].spec_id(),
        )
}


/// The identifier of the stage before position `i`, if any.
pub open spec fn stage_prev_id(stages: Seq<PipelineStage>, i: int) -> Option<StageId> {
    if i <= 0 {
        None
    } else {
        Some(stages[i - 1].spec_id())
    }
}

/// The identifier of the stage before the last one, if any.
pub open spec fn prev_of_last(stages: Seq<PipelineStage>) -> Option<StageId> {
    if stages.len() <= 1 {
        None
    } else {
        Some(stages[stages.len() - 2].spec_id())
    }
}

/// The witness form of one forward step: the stage ran from a state
/// carrying `t0`'s contents (`t0e`), produced `mid` with progress `p` and
/// `done`, and `t1` holds `mid`'s tables with the progress record brought
/// to `p`. `changed` says whether that record differs from the stored one.
pub open spec fn forward_step_wit(
    st: PipelineStage,
    prev: Option<StageId>,
    t0: Tables,
    t1: Tables,
    done: bool,
    changed: bool,
    t0e: Tables,
    mid: Tables,
    p: u64,
) -> bool {
    &&& tables_eqv(t0e, t0)
    &&& changed == (prog_get(t0.progress@, st.spec_id()) != Some(p))
    &&& forall|id2: StageId| #[trigger] prog_get(t1.progress@, id2) == if id2 == st.spec_id() {
        Some(p)
    } else {
        prog_get(t0.progress@, id2)
    }
    &&& t1.canonical@ == mid.canonical@
    &&& t1.headers@ == mid.headers@
    &&& t1.total_difficulty@ == mid.total_difficulty@
    &&& t1.bodies@ == mid.bodies@
    &&& t1.transactions@ == mid.transactions@
    &&& match st {
        PipelineStage::Headers(s) => {
            &&& crate::convert_headers::headers_execute_post(
                s,
                t0e,
                mid,
                prog0(t0e, StageId::Headers),
                Ok(ExecOutput::Progress { stage_progress: p, done }),
            )
            &&& mid.bodies@ == t0.bodies@
            &&& mid.transactions@ == t0.transactions@
            &&& mid.progress@ == t0.progress@
        },
        PipelineStage::Bodies(s) => {
            &&& crate::convert_bodies::bodies_execute_post(
                s,
                t0e,
                mid,
                prog0(t0e, StageId::Bodies),
                Ok(ExecOutput::Progress { stage_progress: p, done }),
            )
            &&& mid.canonical@ == t0.canonical@
            &&& mid.headers@ == t0.headers@
            &&& mid.total_difficulty@ == t0.total_difficulty@
            &&& mid.progress@ == t0.progress@
        },
        PipelineStage::Finish(_) => {
            &&& tables_eqv(mid, t0)
            &&& done
            &&& p == match prev {
                Some(pid) => prog0(t0e, pid),
                None => 0,
            }
        },
    }
}

/// One stage ran forward against `t0`'s contents and had its progress
/// recorded, yielding `t1`.
#[verifier::opaque]
pub open spec fn forward_step_rel(
    st: PipelineStage,
    prev: Option<StageId>,
    t0: Tables,
    t1: Tables,
    done: bool,
    changed: bool,
) -> bool {
    exists|t0e: Tables, mid: Tables, p: u64|
        #[trigger] forward_step_wit(st, prev, t0, t1, done, changed, t0e, mid, p)
}

/// The witness form of a two-stage pass.
pub open spec fn pass2_wit(
    stages: Seq<PipelineStage>,
    t0: Tables,
    t1: Tables,
    all_done: bool,
    advanced: bool,
    m1: Tables,
    d1: bool,
    c1: bool,
    d2: bool,
    c2: bool,
) -> bool {
    &&& stages.len() == 2
    &&& forward_step_rel(stages[0], None, t0, m1, d1, c1)
    &&& forward_step_rel(stages[1], Some(stages[0].spec_id()), m1, t1, d2, c2)
    &&& all_done == (d1 && d2)
    &&& advanced == (c1 || c2)
}

/// The witness form of a three-stage pass.
pub open spec fn pass3_wit(
    stages: Seq<PipelineStage>,
    t0: Tables,
    t1: Tables,
    all_done: bool,
    advanced: bool,
    m1: Tables,
    m2: Tables,
    d1: bool,
    c1: bool,
    d2: bool,
    c2: bool,
    d3: bool,
    c3: bool,
) -> bool {
    &&& stages.len() == 3
    &&& forward_step_rel(stages[0], None, t0, m1, d1, c1)
    &&& forward_step_rel(stages[1], Some(stages[0].spec_id()), m1, m2, d2, c2)
    &&& forward_step_rel(stages[2], Some(stages[1].spec_id()), m2, t1, d3, c3)
    &&& all_done == (d1 && d2 && d3)
    &&& advanced == (c1 || c2 || c3)
}

/// The listed stages ran forward in order from `t0`'s contents, yielding
/// `t1`; `all_done` holds exactly when every one of them reported done,
/// and `advanced` exactly when some progress record changed. An ordered
/// pipeline holds at most one stage of each kind, so at most three.
#[verifier::opaque]
pub open spec fn forward_pass_rel(
    stages: Seq<PipelineStage>,
    t0: Tables,
    t1: Tables,
    all_done: bool,
    advanced: bool,
) -> bool {
    if stages.len() == 0 {
        &&& tables_eqv(t1, t0)
        &&& all_done == true
        &&& advanced == false
    } else if stages.len() == 1 {
        forward_step_rel(stages[0], None, t0, t1, all_done, advanced)
    } else if stages.len() == 2 {
        exists|m1: Tables, d1: bool, c1: bool, d2: bool, c2: bool|
            #[trigger] pass2_wit(stages, t0, t1, all_done, advanced, m1, d1, c1, d2, c2)
    } else if stages.len() == 3 {
        exists|
            m1: Tables,
            m2: Tables,
            d1: bool,
            c1: bool,
            d2: bool,
            c2: bool,
            d3: bool,
            c3: bool,
        |
            #[trigger] pass3_wit(
                stages,
                t0,
                t1,
                all_done,
                advanced,
                m1,
                m2,
                d1,
                c1,
                d2,
                c2,
                d3,
                c3,
            )
    } else {
        false
    }
}

/// Strictly ascending ranks over three kinds bound the pipeline at three
/// stages.
proof fn lemma_stages_len(stages: Seq<PipelineStage>)
    requires
        Pipeline::stages_ordered(stages),
    ensures
        stages.len() <= 3,
{
    if stages.len() > 3 {
        assert(stages[0].rank() < stages[1].rank());
        assert(stages[1].rank() < stages[2].rank());
        assert(stages[2].rank() < stages[3].rank());
    }
}

/// A step relation tolerates replacing either endpoint by a state with
/// equal contents.
proof fn lemma_step_rel_eqv(
    st: PipelineStage,
    prev: Option<StageId>,
    t0: Tables,
    t0b: Tables,
    t1: Tables,
    t1b: Tables,
    done: bool,
    changed: bool,
)
    requires
        forward_step_rel(st, prev, t0, t1, done, changed),
        tables_eqv(t0b, t0),
        tables_eqv(t1b, t1),
    ensures
        forward_step_rel(st, prev, t0b, t1b, done, changed),
{
    reveal(forward_step_rel);
    let (t0e, mid, p) = choose|t0e: Tables, mid: Tables, p: u64|
        forward_step_wit(st, prev, t0, t1, done, changed, t0e, mid, p);
    assert(forward_step_wit(st, prev, t0b, t1b, done, changed, t0e, mid, p));
}

/// A pass relation tolerates replacing its final state by a state with
/// equal contents.
proof fn lemma_pass_rel_eqv(
    stages: Seq<PipelineStage>,
    t0: Tables,
    t1: Tables,
    t1b: Tables,
    all_done: bool,
    advanced: bool,
)
    requires
        forward_pass_rel(stages, t0, t1, all_done, advanced),
        tables_eqv(t1b, t1),
    ensures
        forward_pass_rel(stages, t0, t1b, all_done, advanced),
{
    reveal(forward_pass_rel);
    if stages.len() == 0 {
        assert(tables_eqv(t1b, t0));
    } else if stages.len() == 1 {
        lemma_step_rel_eqv(stages[0], None, t0, t0, t1, t1b, all_done, advanced);
    } else if stages.len() == 2 {
        let (m1, d1, c1, d2, c2) = choose|m1: Tables, d1: bool, c1: bool, d2: bool, c2: bool|
            pass2_wit(stages, t0, t1, all_done, advanced, m1, d1, c1, d2, c2);
        lemma_step_rel_eqv(stages[1], Some(stages[0].spec_id()), m1, m1, t1, t1b, d2, c2);
        assert(pass2_wit(stages, t0, t1b, all_done, advanced, m1, d1, c1, d2, c2));
    } else if stages.len() == 3 {
        let (m1, m2, d1, c1, d2, c2, d3, c3) = choose|
            m1: Tables,
            m2: Tables,
            d1: bool,
            c1: bool,
            d2: bool,
            c2: bool,
            d3: bool,
            c3: bool,
        |
            pass3_wit(stages, t0, t1, all_done, advanced, m1, m2, d1, c1, d2, c2, d3, c3);
        lemma_step_rel_eqv(stages[2], Some(stages[1].spec_id()), m2, m2, t1, t1b, d3, c3);
        assert(pass3_wit(stages, t0, t1b, all_done, advanced, m1, m2, d1, c1, d2, c2, d3, c3));
    }
}

/// Appending one step to a pass relation extends it by one stage.
proof fn lemma_pass_rel_extend(
    ss: Seq<PipelineStage>,
    st: PipelineStage,
    prev: Option<StageId>,
    t0: Tables,
    tmid: Tables,
    t1: Tables,
    ad: bool,
    av: bool,
    done: bool,
    changed: bool,
)
    requires
        ss.len() <= 2,
        forward_pass_rel(ss, t0, tmid, ad, av),
        forward_step_rel(st, prev, tmid, t1, done, changed),
        prev == if ss.len() == 0 {
            None::<StageId>
        } else {
            Some(ss.last().spec_id())
        },
    ensures
        forward_pass_rel(ss.push(st), t0, t1, ad && done, av || changed),
{
    reveal(forward_pass_rel);
    let ss2 = ss.push(st);
    assert(ss2.last() == st);
    if ss.len() == 0 {
        lemma_step_rel_eqv(st, prev, tmid, t0, t1, t1, done, changed);
        assert(ad == true && av == false);
    } else if ss.len() == 1 {
        assert(ss2[0] == ss[0] && ss2[1] == st);
        assert(pass2_wit(ss2, t0, t1, ad && done, av || changed, tmid, ad, av, done, changed));
    } else {
        let (m1, d1, c1, d2, c2) = choose|m1: Tables, d1: bool, c1: bool, d2: bool, c2: bool|
            pass2_wit(ss, t0, tmid, ad, av, m1, d1, c1, d2, c2);
        assert(ss2[0] == ss[0] && ss2[1] == ss[1] && ss2[2] == st);
        assert(pass3_wit(
            ss2,
            t0,
            t1,
            ad && done,
            av || changed,
            m1,
            tmid,
            d1,
            c1,
            d2,
            c2,
            done,
            changed,
        ));
    }
}

/// What one pass reports back to the driver.
#[derive(Clone, Copy, Debug, PartialEq, Eq, Structural)]
pub struct PassOutcome {
    /// Every stage reported `done`.
    pub all_done: bool,
    /// Some stage's recorded progress changed.
    pub advanced: bool,
    /// A stage requested an unwind to this block; the pass ran the unwind
    /// phase instead of finishing forward work.
    pub unwound_to: Option<u64>,
    /// How many commits the pass made.
    pub commits: u64,
}

impl PassOutcome {
    /// The driver stops when a pass has finished all work, moved nothing,
    /// and the pipeline was told to exit once synced.
    pub fn should_exit(&self, exit_after_sync: bool) -> (r: bool)
        ensures
            r == (self.all_done && !self.advanced && self.unwound_to is None && exit_after_sync),
    {
        self.all_done && !self.advanced && matches!(self.unwound_to, Option::None)
            && exit_after_sync
    }
}

/// The staged-sync driver: an ordered list of stages over one shared
/// store. A pass runs every stage forward in order, commits at the
/// configured batching boundaries, reverses into the unwind phase when a
/// stage requests it, and prunes old rows when pruning is enabled.
pub struct Pipeline {
    pub stages: Vec<PipelineStage>,
    /// Commit after a stage once it advanced at least this far.
    pub min_progress_to_commit_after_stage: u64,
    /// Pruning depth in blocks; zero disables the prune phase.
    pub pruning_interval: u64,
    /// Upper bound on the blocks to sync.
    pub max_block: Option<u64>,
    /// Whether the driver should stop after a no-op pass.
    pub exit_after_sync: bool,
    /// Milliseconds the driver sleeps between no-op passes.
    pub delay_after_sync: u64,
    /// Completed passes.
    pub passes: u64,
}

impl Pipeline {
    /// Stage ranks strictly ascend: each stage appears at most once, in
    /// pipeline order.
    pub open spec fn stages_ordered(s: Seq<PipelineStage>) -> bool {
        forall|i: int, j: int| 0 <= i < j < s.len() ==> s[i].rank() < s[j].rank()
    }

    pub open spec fn wf(&self) -> bool {
        &&& forall|i: int| 0 <= i < self.stages@.len() ==> (#[trigger] self.stages@[i]).wf()
        &&& Self::stages_ordered(self.stages@)
    }

    pub fn new() -> (r: Pipeline)
        ensures
            r.wf(),
            r.stages@.len() == 0,
            r.min_progress_to_commit_after_stage == 0,
            r.pruning_interval == 0,
            r.max_block is None,
            !r.exit_after_sync,
            r.delay_after_sync == 0,
            r.passes == 0,
    {
        Pipeline {
            stages: Vec::new(),
            min_progress_to_commit_after_stage: 0,
            pruning_interval: 0,
            max_block: None,
            exit_after_sync: false,
            delay_after_sync: 0,
            passes: 0,
        }
    }

    /// Append a stage; stages arrive in pipeline order.
    pub fn push(&mut self, stage: PipelineStage)
        requires
            old(self).wf(),
            stage.wf(),
            old(self).stages@.len() > 0 ==> old(self).stages@.last().rank() < stage.rank(),
        ensures
            final(self).wf(),
            final(self).stages@ == old(self).stages@.push(stage),
            final(self).min_progress_to_commit_after_stage == old(
                self,
            ).min_progress_to_commit_after_stage,
            final(self).pruning_interval == old(self).pruning_interval,
            final(self).max_block == old(self).max_block,
            final(self).exit_after_sync == old(self).exit_after_sync,
            final(self).delay_after_sync == old(self).delay_after_sync,
            final(self).passes == old(self).passes,
    {
        self.stages.push(stage);
        proof {
            assert forall|i: int, j: int|
                0 <= i < j < self.stages@.len() implies self.stages@[i].rank()
                < self.stages@[j].rank() by {
                if j < self.stages@.len() - 1 {
                    assert(old(self).stages@[i].rank() < old(self).stages@[j].rank());
                } else {
                    if i < self.stages@.len() - 1 {
                        if i < old(self).stages@.len() - 1 {
                            assert(old(self).stages@[i].rank() < old(self).stages@[old(
                                self,
                            ).stages@.len() - 1].rank());
                        }
                    }
                }
            }
        }
    }

    pub fn set_min_progress_to_commit_after_stage(&mut self, v: u64)
        ensures
            *final(self) == (Pipeline { min_progress_to_commit_after_stage: v, ..*old(self) }),
    {
        self.min_progress_to_commit_after_stage = v;
    }

    pub fn set_pruning_interval(&mut self, v: u64)
        ensures
            *final(self) == (Pipeline { pruning_interval: v, ..*old(self) }),
    {
        self.pruning_interval = v;
    }

    pub fn set_max_block(&mut self, v: Option<u64>)
        ensures
            *final(self) == (Pipeline { max_block: v, ..*old(self) }),
    {
        self.max_block = v;
    }

    pub fn set_exit_after_sync(&mut self, v: bool)
        ensures
            *final(self) == (Pipeline { exit_after_sync: v, ..*old(self) }),
    {
        self.exit_after_sync = v;
    }

    pub fn set_delay_after_sync(&mut self, v: u64)
        ensures
            *final(self) == (Pipeline { delay_after_sync: v, ..*old(self) }),
    {
        self.delay_after_sync = v;
    }
}


/// Keys of a concatenation stay bounded when both parts are.
proof fn lemma_keys_at_most_concat<V>(a: Seq<(u64, V)>, b: Seq<(u64, V)>, h: u64, p: u64)
    requires
        keys_at_most(a, h),
        keys_at_most(b, p),
        h <= p,
    ensures
        keys_at_most(a + b, p),
{
    assert forall|x: int| 0 <= x < (a + b).len() implies ((a + b)[x]).0 <= p by {
        if x < a.len() {
            assert((a + b)[x] == a[x]);
        } else {
            assert((a + b)[x] == b[x - a.len()]);
        }
    }
}

/// Keys of a subrange stay bounded.
proof fn lemma_keys_at_most_subrange<V>(a: Seq<(u64, V)>, lo: int, hi: int, p: u64)
    requires
        keys_at_most(a, p),
        0 <= lo <= hi <= a.len(),
    ensures
        keys_at_most(a.subrange(lo, hi), p),
{
    assert forall|x: int| 0 <= x < hi - lo implies (a.subrange(lo, hi)[x]).0 <= p by {
        assert(a.subrange(lo, hi)[x] == a[lo + x]);
    }
}

/// After a successful forward call of the header import, every canonical,
/// header and total-difficulty key is bounded by the new progress.
proof fn lemma_headers_forward_bounds(
    s: ConvertHeaders,
    t0: Tables,
    t1: Tables,
    h: u64,
    p: u64,
    done: bool,
)
    requires
        s.wf(),
        keys_at_most(t0.canonical@, h),
        keys_at_most(t0.headers@, h),
        keys_at_most(t0.total_difficulty@, h),
        crate::convert_headers::headers_execute_post(
            s,
            t0,
            t1,
            h,
            Ok(ExecOutput::Progress { stage_progress: p, done }),
        ),
    ensures
        p >= h,
        keys_at_most(t1.canonical@, p),
        keys_at_most(t1.headers@, p),
        keys_at_most(t1.total_difficulty@, p),
{
    reveal(crate::convert_headers::headers_execute_post);
    let src_c = s.source.canonical@;
    let i0 = walk_start(src_c, h);
    let iend = walk_end(src_c, h, s.limit(h));
    crate::table::lemma_cut_from_bounds(src_c, h + 1);
    crate::table::lemma_cut_from_bounds(src_c, s.limit(h) + 1);
    let appended = src_c.subrange(i0, iend);
    assert(keys_at_most(appended, p)) by {
        assert forall|x: int| 0 <= x < appended.len() implies (appended[x]).0 <= p by {
            assert(appended[x] == src_c[i0 + x]);
            assert(iend > i0);
            if i0 + x < iend - 1 {
                assert(src_c[i0 + x].0 < src_c[iend - 1].0);
            }
        }
    }
    lemma_keys_at_most_concat(t0.canonical@, appended, h, p);
    let hdr_rows = Seq::new((iend - i0) as nat, |j: int| crate::convert_headers::src_header_row(s.source, i0 + j));
    assert(keys_at_most(hdr_rows, p)) by {
        assert forall|x: int| 0 <= x < hdr_rows.len() implies (hdr_rows[x]).0 <= p by {
            assert(hdr_rows[x].0 == src_c[i0 + x].0);
            assert(appended[x].0 == src_c[i0 + x].0);
            assert(keys_at_most(appended, p));
        }
    }
    lemma_keys_at_most_concat(t0.headers@, hdr_rows, h, p);
    let td_rows = Seq::new((iend - i0) as nat, |j: int| crate::convert_headers::src_td_row(s.source, i0 + j));
    assert(keys_at_most(td_rows, p)) by {
        assert forall|x: int| 0 <= x < td_rows.len() implies (td_rows[x]).0 <= p by {
            assert(td_rows[x].0 == src_c[i0 + x].0);
            assert(appended[x].0 == src_c[i0 + x].0);
            assert(keys_at_most(appended, p));
        }
    }
    lemma_keys_at_most_concat(t0.total_difficulty@, td_rows, h, p);
}

/// After a successful forward call of the body import, every body key is
/// bounded by the new progress, and the new progress never passes the
/// bound on the canonical keys it walked.
proof fn lemma_bodies_forward_bounds(
    s: ConvertBodies,
    t0: Tables,
    t1: Tables,
    h: u64,
    p: u64,
    done: bool,
    hp: u64,
)
    requires
        s.wf(),
        t0.wf(),
        keys_at_most(t0.bodies@, h),
        keys_at_most(t0.canonical@, hp),
        crate::convert_bodies::bodies_execute_post(
            s,
            t0,
            t1,
            h,
            Ok(ExecOutput::Progress { stage_progress: p, done }),
        ),
    ensures
        p >= h,
        keys_at_most(t1.bodies@, p),
        p == h || p <= hp,
{
    reveal(crate::convert_bodies::bodies_execute_post);
    reveal(crate::convert_bodies::bodies_converted);
    let loc_c = t0.canonical@;
    let l0 = cut_from(loc_c, h + 1);
    let m = choose|m: int|
        bodies_converted(s, t0, t1, h, p, done, m);
    crate::table::lemma_cut_from_bounds(loc_c, h + 1);
    let s0 = crate::convert_bodies::start_tx_id(t0, h);
    let rows = conv_body_rows(s.source, loc_c, l0, s0, m);
    crate::convert_bodies::lemma_bodies_avail_le_len(s.source, loc_c, l0);
    if m > 0 {
        assert(p == loc_c[l0 + m - 1].0);
        assert(keys_at_most(rows, p)) by {
            assert forall|x: int| 0 <= x < rows.len() implies (rows[x]).0 <= p by {
                assert(rows[x].0 == loc_c[l0 + x].0);
                if l0 + x < l0 + m - 1 {
                    assert(loc_c[l0 + x].0 < loc_c[l0 + m - 1].0);
                }
            }
        }
        assert(p <= hp);
    } else {
        assert(rows =~= Seq::<(u64, crate::models::BodyForStorage)>::empty());
    }
    lemma_keys_at_most_concat(t0.bodies@, rows, h, p);
}

/// Distinct positions in an ordered stage list carry distinct stage
/// identifiers.
proof fn lemma_stage_ids_unique(stages: Seq<PipelineStage>, a: int, b: int)
    requires
        Pipeline::stages_ordered(stages),
        0 <= a < stages.len(),
        0 <= b < stages.len(),
        a != b,
    ensures
        stages[a].spec_id() != stages[b].spec_id(),
{
    if a < b {
        assert(stages[a].rank() < stages[b].rank());
    } else {
        assert(stages[b].rank() < stages[a].rank());
    }
}

/// Raising one stage's progress, while staying at or below its
/// predecessor, preserves the progress chain.
proof fn lemma_chain_after_set(
    stages: Seq<PipelineStage>,
    i: int,
    t0: Tables,
    t1: Tables,
    p: u64,
)
    requires
        Pipeline::stages_ordered(stages),
        0 <= i < stages.len(),
        progress_chain(stages, t0),
        forall|id2: StageId| #[trigger] prog_get(t1.progress@, id2) == if id2
            == stages[i].spec_id() {
            Some(p)
        } else {
            prog_get(t0.progress@, id2)
        },
        p >= prog0(t0, stages[i].spec_id()),
        i > 0 ==> p <= prog0(t0, stages[i - 1].spec_id()),
    ensures
        progress_chain(stages, t1),
{
    let sid = stages[i].spec_id();
    assert forall|k: int|
        0 <= k < stages.len() - 1 implies prog0(t1, (#[trigger] stages[k + 1]).spec_id())
        <= prog0(t1, stages[k].spec_id()) by {
        assert(prog0(t0, stages[k + 1].spec_id()) <= prog0(t0, stages[k].spec_id()));
        if k + 1 != i {
            lemma_stage_ids_unique(stages, k + 1, i);
        }
        if k != i {
            lemma_stage_ids_unique(stages, k, i);
        }
    }
}


/// Invariant and chain conclusions after a forward call of the header
/// import and its progress write.
#[verifier::spinoff_prover]
#[verifier::rlimit(100)]
proof fn lemma_step_headers(
    stages: Seq<PipelineStage>,
    i: int,
    s: ConvertHeaders,
    txb: Tables,
    t_mid: Tables,
    t_after: Tables,
    pre: u64,
    p: u64,
    done: bool,
    changed: bool,
    entry_chain: bool,
)
    requires
        Pipeline::stages_ordered(stages),
        0 <= i < stages.len(),
        stages[i] == PipelineStage::Headers(s),
        s.wf(),
        txb.wf(),
        pipe_tables_inv(txb),
        pre == prog0(txb, StageId::Headers),
        crate::convert_headers::headers_execute_post(
            s,
            txb,
            t_mid,
            pre,
            Ok(ExecOutput::Progress { stage_progress: p, done }),
        ),
        t_mid.wf(),
        t_mid.bodies@ == txb.bodies@,
        t_mid.transactions@ == txb.transactions@,
        t_mid.progress@ == txb.progress@,
        t_after.wf(),
        t_after.canonical@ == t_mid.canonical@,
        t_after.headers@ == t_mid.headers@,
        t_after.total_difficulty@ == t_mid.total_difficulty@,
        t_after.bodies@ == t_mid.bodies@,
        t_after.transactions@ == t_mid.transactions@,
        forall|id2: StageId| #[trigger] prog_get(t_after.progress@, id2) == if id2
            == StageId::Headers {
            Some(p)
        } else {
            prog_get(txb.progress@, id2)
        },
        p >= pre,
        changed == (prog_get(txb.progress@, StageId::Headers) != Some(p)),
        !changed ==> t_after.progress@ == txb.progress@,
        entry_chain ==> progress_chain(stages, txb),
    ensures
        pipe_tables_inv(t_after),
        entry_chain ==> progress_chain(stages, t_after),
        !changed ==> tables_eqv(t_after, txb),
{
    lemma_headers_forward_bounds(s, txb, t_mid, pre, p, done);
    if !changed {
        reveal(crate::convert_headers::headers_execute_post);
        assert(p == pre);
        let src_c = s.source.canonical@;
        let i0 = walk_start(src_c, pre);
        let iend = walk_end(src_c, pre, s.limit(pre));
        crate::table::lemma_cut_from_split(src_c, pre + 1);
        crate::table::lemma_cut_from_bounds(src_c, s.limit(pre) + 1);
        if iend > i0 {
            assert(i0 <= iend - 1 < src_c.len());
            assert(src_c[iend - 1].0 >= pre + 1);
        }
        assert(iend == i0);
        assert(t_mid.canonical@ =~= txb.canonical@);
        assert(t_mid.headers@ =~= txb.headers@);
        assert(t_mid.total_difficulty@ =~= txb.total_difficulty@);
        assert(tables_eqv(t_after, txb));
    }
    assert(prog0(t_after, StageId::Headers) == p);
    assert(prog0(t_after, StageId::Bodies) == prog0(txb, StageId::Bodies));
    assert(pipe_tables_inv(t_after));
    if entry_chain {
        if i > 0 {
            assert(stages[i - 1].rank() < stages[i].rank());
            assert(false);
        }
        lemma_chain_after_set(stages, i, txb, t_after, p);
    }
}

/// Invariant and chain conclusions after a forward call of the body
/// import and its progress write.
#[verifier::spinoff_prover]
#[verifier::rlimit(100)]
proof fn lemma_step_bodies(
    stages: Seq<PipelineStage>,
    i: int,
    s: ConvertBodies,
    txb: Tables,
    t_mid: Tables,
    t_after: Tables,
    pre: u64,
    p: u64,
    done: bool,
    changed: bool,
    entry_chain: bool,
)
    requires
        Pipeline::stages_ordered(stages),
        0 <= i < stages.len(),
        stages[i] == PipelineStage::Bodies(s),
        s.wf(),
        txb.wf(),
        pipe_tables_inv(txb),
        pre == prog0(txb, StageId::Bodies),
        crate::convert_bodies::bodies_execute_post(
            s,
            txb,
            t_mid,
            pre,
            Ok(ExecOutput::Progress { stage_progress: p, done }),
        ),
        t_mid.wf(),
        bodies_cover_txs(t_mid.bodies@, t_mid.transactions@),
        t_mid.canonical@ == txb.canonical@,
        t_mid.headers@ == txb.headers@,
        t_mid.total_difficulty@ == txb.total_difficulty@,
        t_mid.progress@ == txb.progress@,
        t_after.wf(),
        t_after.canonical@ == t_mid.canonical@,
        t_after.headers@ == t_mid.headers@,
        t_after.total_difficulty@ == t_mid.total_difficulty@,
        t_after.bodies@ == t_mid.bodies@,
        t_after.transactions@ == t_mid.transactions@,
        forall|id2: StageId| #[trigger] prog_get(t_after.progress@, id2) == if id2
            == StageId::Bodies {
            Some(p)
        } else {
            prog_get(txb.progress@, id2)
        },
        p >= pre,
        changed == (prog_get(txb.progress@, StageId::Bodies) != Some(p)),
        !changed ==> t_after.progress@ == txb.progress@,
        entry_chain ==> progress_chain(stages, txb),
    ensures
        pipe_tables_inv(t_after),
        entry_chain ==> progress_chain(stages, t_after),
        !changed ==> tables_eqv(t_after, txb),
{
    lemma_bodies_forward_bounds(s, txb, t_mid, pre, p, done, prog0(txb, StageId::Headers));
    if !changed {
        reveal(crate::convert_bodies::bodies_execute_post);
        reveal(crate::convert_bodies::bodies_converted);
        assert(p == pre);
        let loc_c = txb.canonical@;
        let l0 = cut_from(loc_c, pre + 1);
        let m = choose|m: int|
            bodies_converted(s, txb, t_mid, pre, p, done, m);
        crate::table::lemma_cut_from_split(loc_c, pre + 1);
        crate::convert_bodies::lemma_bodies_avail_le_len(s.source, loc_c, l0);
        if m > 0 {
            assert(loc_c[l0 + m - 1].0 >= pre + 1);
        }
        assert(m == 0);
        assert(conv_body_rows(
            s.source,
            loc_c,
            l0,
            crate::convert_bodies::start_tx_id(txb, pre),
            0,
        ) =~= Seq::<(u64, crate::models::BodyForStorage)>::empty());
        assert(crate::convert_bodies::conv_tx_rows(
            s.source,
            loc_c,
            l0,
            crate::convert_bodies::start_tx_id(txb, pre),
            0,
        ) =~= Seq::<(u64, crate::models::TransactionRecord)>::empty());
        assert(t_mid.bodies@ =~= txb.bodies@);
        assert(t_mid.transactions@ =~= txb.transactions@);
        assert(tables_eqv(t_after, txb));
    }
    assert(prog0(t_after, StageId::Bodies) == p);
    assert(prog0(t_after, StageId::Headers) == prog0(txb, StageId::Headers));
    assert(pipe_tables_inv(t_after));
    if entry_chain {
        if i > 0 {
            assert(stages[i - 1].rank() < stages[i].rank());
            assert(stages[i - 1] is Headers);
            assert(prog0(txb, stages[i - 1].spec_id()) == prog0(txb, StageId::Headers));
            assert(prog0(txb, stages[(i - 1) + 1].spec_id()) <= prog0(
                txb,
                stages[i - 1].spec_id(),
            ));
            assert(prog0(txb, StageId::Bodies) <= prog0(txb, StageId::Headers));
            assert(p <= prog0(txb, StageId::Headers));
        }
        lemma_chain_after_set(stages, i, txb, t_after, p);
    }
}

/// Invariant and chain conclusions after the terminating stage and its
/// progress write.
#[verifier::spinoff_prover]
#[verifier::rlimit(100)]
proof fn lemma_step_finish(
    stages: Seq<PipelineStage>,
    i: int,
    txb: Tables,
    t_mid: Tables,
    t_after: Tables,
    pre: u64,
    p: u64,
    changed: bool,
    entry_chain: bool,
)
    requires
        Pipeline::stages_ordered(stages),
        0 <= i < stages.len(),
        stages[i] is Finish,
        txb.wf(),
        pipe_tables_inv(txb),
        pre == prog0(txb, StageId::Finish),
        tables_eqv(t_mid, txb),
        t_mid.wf(),
        t_after.wf(),
        t_after.canonical@ == t_mid.canonical@,
        t_after.headers@ == t_mid.headers@,
        t_after.total_difficulty@ == t_mid.total_difficulty@,
        t_after.bodies@ == t_mid.bodies@,
        t_after.transactions@ == t_mid.transactions@,
        forall|id2: StageId| #[trigger] prog_get(t_after.progress@, id2) == if id2
            == StageId::Finish {
            Some(p)
        } else {
            prog_get(txb.progress@, id2)
        },
        p >= pre,
        i > 0 ==> p == prog0(txb, stages[i - 1].spec_id()),
        i == 0 ==> p == 0,
        changed == (prog_get(txb.progress@, StageId::Finish) != Some(p)),
        !changed ==> t_after.progress@ == txb.progress@,
        entry_chain ==> progress_chain(stages, txb),
    ensures
        pipe_tables_inv(t_after),
        entry_chain ==> progress_chain(stages, t_after),
        !changed ==> tables_eqv(t_after, txb),
{
    assert(prog0(t_after, StageId::Headers) == prog0(txb, StageId::Headers));
    assert(prog0(t_after, StageId::Bodies) == prog0(txb, StageId::Bodies));
    assert(pipe_tables_inv(t_after));
    if entry_chain {
        lemma_chain_after_set(stages, i, txb, t_after, p);
    }
}

/// What one forward stage call produced: the progress it started from, its
/// output, and whether the progress record changed.
struct ForwardStep {
    pre: u64,
    outcome: ExecOutput,
    changed: bool,
}

impl Pipeline {
    /// Run one stage forward and record its progress.
    #[verifier::spinoff_prover]
    #[verifier::rlimit(100)]
    fn forward_one(
        stages: &Vec<PipelineStage>,
        i: usize,
        restarted: bool,
        tx: &mut RwTx,
        Ghost(entry_chain): Ghost<bool>,
    ) -> (r: Result<ForwardStep, StageError>)
        requires
            forall|k: int| 0 <= k < stages@.len() ==> (#[trigger] stages@[k]).wf(),
            Self::stages_ordered(stages@),
            i < stages@.len(),
            old(tx).tables.wf(),
            pipe_tables_inv(old(tx).tables),
            entry_chain ==> progress_chain(stages@, old(tx).tables),
        ensures
            final(tx).tables.wf(),
            r matches Ok(step) ==> {
                &&& pipe_tables_inv(final(tx).tables)
                &&& (entry_chain ==> progress_chain(stages@, final(tx).tables))
                &&& (step.outcome matches ExecOutput::Progress { stage_progress, done } ==> {
                    &&& stage_progress >= step.pre
                    &&& forward_step_rel(
                        stages@[i as int],
                        stage_prev_id(stages@, i as int),
                        old(tx).tables,
                        final(tx).tables,
                        done,
                        step.changed,
                    )
                    &&& (!step.changed ==> tables_eqv(final(tx).tables, old(tx).tables))
                })
                &&& (step.outcome matches ExecOutput::Unwind { unwind_to } ==> {
                    &&& tables_eqv(final(tx).tables, old(tx).tables)
                    &&& !step.changed
                })
            },
    {
        let stage = &stages[i];
        let sid = stage.id();
        let pre_opt = tx.tables.progress.get(sid);
        let pre: u64 = match pre_opt {
            Some(p) => p,
            None => 0,
        };
        let prev: Option<(StageId, u64)> = if i == 0 {
            None
        } else {
            let pid = stages[i - 1].id();
            let pp: u64 = match tx.tables.progress.get(pid) {
                Some(p) => p,
                None => 0,
            };
            Some((pid, pp))
        };
        let input = StageInput { restarted, previous_stage: prev, stage_progress: pre_opt };
        let ghost txb = tx.tables;
        let result = match stage {
            PipelineStage::Headers(s) => s.execute(tx, input),
            PipelineStage::Bodies(s) => s.execute(tx, input),
            PipelineStage::Finish(s) => s.execute(tx, input),
        };
        match result {
            Ok(ExecOutput::Progress { stage_progress: p, done }) => {
                if p < pre {
                    return Err(StageError::NonMonotonicProgress { stage: sid });
                }
                let changed = match pre_opt {
                    Some(q) => q != p,
                    None => true,
                };
                let ghost tx_pre_set = tx.tables;
                if changed {
                    tx.tables.progress.set(sid, p);
                }
                proof {
                    assert(stages@[i as int].wf());
                    assert(pre == prog0(txb, sid));
                    assert(forall|id2: StageId| #[trigger] prog_get(tx.tables.progress@, id2)
                        == if id2 == sid {
                            Some(p)
                        } else {
                            prog_get(txb.progress@, id2)
                        });
                    match stage {
                        PipelineStage::Headers(s) => {
                            lemma_step_headers(
                                stages@,
                                i as int,
                                *s,
                                txb,
                                tx_pre_set,
                                tx.tables,
                                pre,
                                p,
                                done,
                                changed,
                                entry_chain,
                            );
                        },
                        PipelineStage::Bodies(s) => {
                            lemma_step_bodies(
                                stages@,
                                i as int,
                                *s,
                                txb,
                                tx_pre_set,
                                tx.tables,
                                pre,
                                p,
                                done,
                                changed,
                                entry_chain,
                            );
                        },
                        PipelineStage::Finish(_) => {
                            assert(i > 0 ==> p == prog0(txb, stages@[i as int - 1].spec_id()));
                            lemma_step_finish(
                                stages@,
                                i as int,
                                txb,
                                tx_pre_set,
                                tx.tables,
                                pre,
                                p,
                                changed,
                                entry_chain,
                            );
                        },
                    }
                    assert(forward_step_wit(
                        stages@[i as int],
                        stage_prev_id(stages@, i as int),
                        txb,
                        tx.tables,
                        done,
                        changed,
                        txb,
                        tx_pre_set,
                        p,
                    ));
                    assert(forward_step_rel(
                        stages@[i as int],
                        stage_prev_id(stages@, i as int),
                        txb,
                        tx.tables,
                        done,
                        changed,
                    )) by {
                        reveal(forward_step_rel);
                    }
                }
                Ok(
                    ForwardStep {
                        pre,
                        outcome: ExecOutput::Progress { stage_progress: p, done },
                        changed,
                    },
                )
            },
            Ok(ExecOutput::Unwind { unwind_to }) => {
                proof {
                    reveal(crate::convert_headers::headers_execute_post);
                    reveal(crate::convert_bodies::bodies_execute_post);
                    match stage {
                        PipelineStage::Headers(s) => {
                            assert(tables_eqv(tx.tables, txb));
                        },
                        PipelineStage::Bodies(s) => {
                            assert(tables_eqv(tx.tables, txb));
                        },
                        PipelineStage::Finish(_) => {
                            assert(false);
                        },
                    }
                    if entry_chain {
                        assert forall|k: int|
                            0 <= k < stages@.len() - 1 implies prog0(
                            tx.tables,
                            (#[trigger] stages@[k + 1]).spec_id(),
                        ) <= prog0(tx.tables, stages@[k].spec_id()) by {
                            assert(prog0(txb, stages@[k + 1].spec_id()) <= prog0(
                                txb,
                                stages@[k].spec_id(),
                            ));
                        }
                    }
                }
                Ok(
                    ForwardStep {
                        pre,
                        outcome: ExecOutput::Unwind { unwind_to },
                        changed: false,
                    },
                )
            },
            Err(e) => Err(e),
        }
    }
}

impl Pipeline {
    /// Run one pass of the sync loop: every stage forward in order with
    /// the configured commit batching, then the unwind phase if a stage
    /// requested one, then the prune phase if pruning is enabled. The
    /// committed store always satisfies the pipeline invariant and keeps
    /// the progress chain; with pruning off, a pass that ran no unwind
    /// leaves the store exactly as running the stages' forward relations
    /// in order, with `all_done` and `advanced` reporting the stages'
    /// `done` flags and progress-record changes faithfully; after an
    /// unwind, every stage's recorded progress sits at the target or
    /// below.
    pub fn run_pass(&mut self, db: &mut Db) -> (r: Result<PassOutcome, StageError>)
        requires
            old(self).wf(),
            old(db).tables.wf(),
            pipe_tables_inv(old(db).tables),
        ensures
            final(self).wf(),
            *final(self) == (Pipeline {
                passes: if old(self).passes < u64::MAX {
                    (old(self).passes + 1) as u64
                } else {
                    u64::MAX
                },
                ..*old(self)
            }),
            final(db).tables.wf(),
            pipe_tables_inv(final(db).tables),
            (r matches Ok(o) && o.unwound_to is None && progress_chain(
                old(self).stages@,
                old(db).tables,
            )) ==> progress_chain(old(self).stages@, final(db).tables),
            r matches Ok(o) ==> ((o.unwound_to is None && old(self).pruning_interval == 0)
                ==> exists|tfin: Tables|
                #[trigger] forward_pass_rel(
                    old(self).stages@,
                    old(db).tables,
                    tfin,
                    o.all_done,
                    o.advanced,
                ) && tables_eqv(final(db).tables, tfin)),
            r matches Ok(o) ==> (o.unwound_to matches Some(u) ==> forall|k: int|
                0 <= k < old(self).stages@.len() ==> prog0(
                    final(db).tables,
                    (#[trigger] old(self).stages@[k]).spec_id(),
                ) <= u),
    {
        let out = Self::pass_inner(
            &self.stages,
            self.min_progress_to_commit_after_stage,
            self.pruning_interval,
            self.passes > 0,
            db,
        );
        self.passes = match self.passes.checked_add(1) {
            Some(v) => v,
            None => u64::MAX,
        };
        out
    }

    #[verifier::spinoff_prover]
    #[verifier::rlimit(100)]
    fn pass_inner(
        stages: &Vec<PipelineStage>,
        min_commit: u64,
        pruning_interval: u64,
        restarted: bool,
        db: &mut Db,
    ) -> (r: Result<PassOutcome, StageError>)
        requires
            forall|i: int| 0 <= i < stages@.len() ==> (#[trigger] stages@[i]).wf(),
            Self::stages_ordered(stages@),
            old(db).tables.wf(),
            pipe_tables_inv(old(db).tables),
        ensures
            final(db).tables.wf(),
            pipe_tables_inv(final(db).tables),
            (r matches Ok(o) && o.unwound_to is None && progress_chain(
                stages@,
                old(db).tables,
            )) ==> progress_chain(stages@, final(db).tables),
            r matches Ok(o) ==> ((o.unwound_to is None && pruning_interval == 0)
                ==> exists|tfin: Tables|
                #[trigger] forward_pass_rel(
                    stages@,
                    old(db).tables,
                    tfin,
                    o.all_done,
                    o.advanced,
                ) && tables_eqv(final(db).tables, tfin)),
            r matches Ok(o) ==> (o.unwound_to matches Some(u) ==> forall|k: int|
                0 <= k < stages@.len() ==> prog0(
                    final(db).tables,
                    (#[trigger] stages@[k]).spec_id(),
                ) <= u),
    {
        let ghost t_entry = old(db).tables;
        let ghost entry_chain = progress_chain(stages@, t_entry);
        let n = stages.len();
        proof {
            lemma_stages_len(stages@);
        }
        let mut tx = db.begin();
        proof {
            reveal(forward_pass_rel);
            assert(stages@.subrange(0, 0) =~= Seq::<PipelineStage>::empty());
            assert(forward_pass_rel(stages@.subrange(0, 0), t_entry, tx.tables, true, false));
        }
        let mut dirty = false;
        let mut commits: u64 = 0;
        let mut all_done = true;
        let mut advanced = false;
        let mut unwind_to_opt: Option<u64> = None;

        let mut i: usize = 0;
        while i < n && unwind_to_opt.is_none()
            invariant
                forall|k: int| 0 <= k < stages@.len() ==> (#[trigger] stages@[k]).wf(),
                Self::stages_ordered(stages@),
                n == stages@.len(),
                0 <= i <= n,
                t_entry == old(db).tables,
                entry_chain == progress_chain(stages@, t_entry),
                n <= 3,
                tx.tables.wf(),
                pipe_tables_inv(tx.tables),
                db.tables.wf(),
                pipe_tables_inv(db.tables),
                entry_chain ==> progress_chain(stages@, tx.tables),
                entry_chain ==> progress_chain(stages@, db.tables),
                unwind_to_opt is None ==> forward_pass_rel(
                    stages@.subrange(0, i as int),
                    t_entry,
                    tx.tables,
                    all_done,
                    advanced,
                ),
                !dirty ==> tables_eqv(db.tables, tx.tables),
            decreases n - i + if unwind_to_opt is Some {
                0int
            } else {
                1int
            },
        {
            let ghost txb = tx.tables;
            let step = match Self::forward_one(
                stages,
                i,
                restarted,
                &mut tx,
                Ghost(entry_chain),
            ) {
                Ok(st) => st,
                Err(e) => {
                    return Err(e);
                },
            };
            let ghost ad0 = all_done;
            let ghost av0 = advanced;
            match step.outcome {
                ExecOutput::Progress { stage_progress: p, done } => {
                    if !done {
                        all_done = false;
                    }
                    if step.changed {
                        dirty = true;
                        advanced = true;
                    }
                    proof {
                        let ss = stages@.subrange(0, i as int);
                        assert(stage_prev_id(stages@, i as int) == if ss.len() == 0 {
                            None::<StageId>
                        } else {
                            Some(ss.last().spec_id())
                        }) by {
                            if i > 0 {
                                assert(ss.last() == stages@[i as int - 1]);
                            }
                        }
                        lemma_pass_rel_extend(
                            ss,
                            stages@[i as int],
                            stage_prev_id(stages@, i as int),
                            t_entry,
                            txb,
                            tx.tables,
                            ad0,
                            av0,
                            done,
                            step.changed,
                        );
                        assert(stages@.subrange(0, i as int + 1) =~= ss.push(
                            stages@[i as int],
                        ));
                        assert(all_done == (ad0 && done));
                        assert(advanced == (av0 || step.changed));
                        if !step.changed && !dirty {
                            assert(tables_eqv(db.tables, tx.tables));
                        }
                    }
                    let trigger = (p - step.pre >= min_commit) || !done;
                    if trigger && dirty {
                        let ghost before_commit = tx.tables;
                        tx.commit(db);
                        tx = db.begin();
                        commits = match commits.checked_add(1) {
                            Some(v) => v,
                            None => u64::MAX,
                        };
                        dirty = false;
                        proof {
                            lemma_pass_rel_eqv(
                                stages@.subrange(0, i as int + 1),
                                t_entry,
                                before_commit,
                                tx.tables,
                                all_done,
                                advanced,
                            );
                        }
                    }
                },
                ExecOutput::Unwind { unwind_to } => {
                    unwind_to_opt = Some(unwind_to);
                    proof {
                        if !dirty {
                            assert(tables_eqv(db.tables, tx.tables));
                        }
                    }
                },
            }
            i += 1;
        }

        match unwind_to_opt {
            Some(u) => {
                all_done = false;
                let mut j: usize = n;
                while j > 0
                    invariant
                        forall|k: int| 0 <= k < stages@.len() ==> (#[trigger] stages@[k]).wf(),
                        Self::stages_ordered(stages@),
                        n == stages@.len(),
                        0 <= j <= n,
                        tx.tables.wf(),
                        pipe_tables_inv(tx.tables),
                        db.tables.wf(),
                        pipe_tables_inv(db.tables),
                        forall|k: int|
                            j <= k < n ==> prog0(
                                tx.tables,
                                (#[trigger] stages@[k]).spec_id(),
                            ) <= u,
                        !dirty ==> tables_eqv(db.tables, tx.tables),
                    decreases j,
                {
                    j -= 1;
                    let stage = &stages[j];
                    let sid = stage.id();
                    let sp: u64 = match tx.tables.progress.get(sid) {
                        Some(p) => p,
                        None => 0,
                    };
                    if sp > u {
                        let uin = UnwindInput { unwind_to: u, stage_progress: sp };
                        let ghost txb = tx.tables;
                        let ghost j_set = j;
                        let res = match stage {
                            PipelineStage::Headers(s) => s.unwind(&mut tx, uin),
                            PipelineStage::Bodies(s) => s.unwind(&mut tx, uin),
                            PipelineStage::Finish(s) => s.unwind(&mut tx, uin),
                        };
                        match res {
                            Ok(o) => {
                                let ghost tx_mid = tx.tables;
                                tx.tables.progress.set(sid, o.stage_progress);
                                dirty = true;
                                advanced = true;
                                proof {
                                    assert(o.stage_progress == u);
                                    assert(forall|id2: StageId| #[trigger] prog_get(
                                        tx.tables.progress@,
                                        id2,
                                    ) == if id2 == stages@[j as int].spec_id() {
                                        Some(u)
                                    } else {
                                        prog_get(txb.progress@, id2)
                                    });
                                    match stage {
                                        PipelineStage::Headers(s) => {
                                            crate::table::lemma_cut_from_split(
                                                txb.canonical@,
                                                u + 1,
                                            );
                                            crate::table::lemma_cut_from_split(
                                                txb.headers@,
                                                u + 1,
                                            );
                                            crate::table::lemma_cut_from_split(
                                                txb.total_difficulty@,
                                                u + 1,
                                            );
                                            assert(keys_at_most(tx.tables.canonical@, u)) by {
                                                assert forall|x: int|
                                                    0 <= x < tx.tables.canonical@.len() implies (
                                                #[trigger] tx.tables.canonical@[x]).0 <= u by {
                                                    assert(tx.tables.canonical@[x]
                                                        == txb.canonical@[x]);
                                                }
                                            }
                                            assert(keys_at_most(tx.tables.headers@, u)) by {
                                                assert forall|x: int|
                                                    0 <= x < tx.tables.headers@.len() implies (
                                                #[trigger] tx.tables.headers@[x]).0 <= u by {
                                                    assert(tx.tables.headers@[x]
                                                        == txb.headers@[x]);
                                                }
                                            }
                                            assert(keys_at_most(tx.tables.total_difficulty@, u))
                                                by {
                                                assert forall|x: int|
                                                    0 <= x < tx.tables.total_difficulty@.len() implies (
                                                #[trigger] tx.tables.total_difficulty@[x]).0
                                                    <= u by {
                                                    assert(tx.tables.total_difficulty@[x]
                                                        == txb.total_difficulty@[x]);
                                                }
                                            }
                                            assert(pipe_tables_inv(tx.tables));
                                        },
                                        PipelineStage::Bodies(s) => {
                                            crate::table::lemma_cut_from_split(
                                                txb.bodies@,
                                                u + 1,
                                            );
                                            assert(keys_at_most(tx.tables.bodies@, u)) by {
                                                assert forall|x: int|
                                                    0 <= x < tx.tables.bodies@.len() implies (
                                                #[trigger] tx.tables.bodies@[x]).0 <= u by {
                                                    assert(tx.tables.bodies@[x]
                                                        == txb.bodies@[x]);
                                                }
                                            }
                                            assert(bodies_cover_txs(
                                                tx.tables.bodies@,
                                                tx.tables.transactions@,
                                            ));
                                            assert(pipe_tables_inv(tx.tables));
                                        },
                                        PipelineStage::Finish(_) => {
                                            assert(tables_eqv(tx_mid, txb));
                                            assert(pipe_tables_inv(tx.tables));
                                        },
                                    }
                                    assert forall|k: int|
                                        j <= k < n implies prog0(
                                        tx.tables,
                                        (#[trigger] stages@[k]).spec_id(),
                                    ) <= u by {
                                        if k != j {
                                            lemma_stage_ids_unique(stages@, k, j as int);
                                        }
                                    }
                                }
                            },
                            Err(e) => {
                                return Err(e);
                            },
                        }
                    }
                }
            },
            None => {
                if pruning_interval > 0 {
                    let mut j: usize = 0;
                    while j < n
                        invariant
                            forall|k: int|
                                0 <= k < stages@.len() ==> (#[trigger] stages@[k]).wf(),
                            n == stages@.len(),
                            0 <= j <= n,
                            tx.tables.wf(),
                            pipe_tables_inv(tx.tables),
                            db.tables.wf(),
                            pipe_tables_inv(db.tables),
                            entry_chain ==> progress_chain(stages@, tx.tables),
                            entry_chain ==> progress_chain(stages@, db.tables),
                            !dirty ==> tables_eqv(db.tables, tx.tables),
                        decreases n - j,
                    {
                        let stage = &stages[j];
                        let sid = stage.id();
                        match tx.tables.progress.get(sid) {
                            Some(p) => {
                                let prune_to = p.saturating_sub(pruning_interval);
                                let pin = PruningInput { prune_to };
                                let ghost txb = tx.tables;
                                let res = match stage {
                                    PipelineStage::Headers(s) => s.prune(&mut tx, pin),
                                    PipelineStage::Bodies(s) => s.prune(&mut tx, pin),
                                    PipelineStage::Finish(s) => s.prune(&mut tx, pin),
                                };
                                match res {
                                    Ok(()) => {
                                        dirty = true;
                                        proof {
                                            match stage {
                                                PipelineStage::Headers(s) => {
                                                    crate::table::lemma_cut_from_bounds(
                                                        txb.canonical@,
                                                        prune_to as int,
                                                    );
                                                    crate::table::lemma_cut_from_bounds(
                                                        txb.headers@,
                                                        prune_to as int,
                                                    );
                                                    crate::table::lemma_cut_from_bounds(
                                                        txb.total_difficulty@,
                                                        prune_to as int,
                                                    );
                                                    lemma_keys_at_most_subrange(
                                                        txb.canonical@,
                                                        cut_from(txb.canonical@, prune_to as int),
                                                        txb.canonical@.len() as int,
                                                        prog0(txb, StageId::Headers),
                                                    );
                                                    lemma_keys_at_most_subrange(
                                                        txb.headers@,
                                                        cut_from(txb.headers@, prune_to as int),
                                                        txb.headers@.len() as int,
                                                        prog0(txb, StageId::Headers),
                                                    );
                                                    lemma_keys_at_most_subrange(
                                                        txb.total_difficulty@,
                                                        cut_from(
                                                            txb.total_difficulty@,
                                                            prune_to as int,
                                                        ),
                                                        txb.total_difficulty@.len() as int,
                                                        prog0(txb, StageId::Headers),
                                                    );
                                                    assert(pipe_tables_inv(tx.tables));
                                                },
                                                PipelineStage::Bodies(s) => {
                                                    crate::table::lemma_cut_from_bounds(
                                                        txb.bodies@,
                                                        prune_to as int,
                                                    );
                                                    lemma_keys_at_most_subrange(
                                                        txb.bodies@,
                                                        cut_from(txb.bodies@, prune_to as int),
                                                        txb.bodies@.len() as int,
                                                        prog0(txb, StageId::Bodies),
                                                    );
                                                    assert(bodies_cover_txs(
                                                        tx.tables.bodies@,
                                                        tx.tables.transactions@,
                                                    ));
                                                    assert(pipe_tables_inv(tx.tables));
                                                },
                                                PipelineStage::Finish(_) => {
                                                    assert(tables_eqv(tx.tables, txb));
                                                    assert(pipe_tables_inv(tx.tables));
                                                },
                                            }
                                            assert(tx.tables.progress@ == txb.progress@);
                                        }
                                    },
                                    Err(e) => {
                                        return Err(e);
                                    },
                                }
                            },
                            None => {},
                        }
                        j += 1;
                    }
                }
            },
        }

        let ghost tfin = tx.tables;
        if dirty {
            tx.commit(db);
            commits = match commits.checked_add(1) {
                Some(v) => v,
                None => u64::MAX,
            };
        }
        let out = PassOutcome { all_done, advanced, unwound_to: unwind_to_opt, commits };
        proof {
            assert(tables_eqv(db.tables, tfin));
            match out.unwound_to {
                None => {
                    if pruning_interval == 0 {
                        assert(stages@.subrange(0, n as int) =~= stages@);
                        assert(forward_pass_rel(
                            stages@,
                            t_entry,
                            tfin,
                            out.all_done,
                            out.advanced,
                        ));
                        assert(exists|tf: Tables|
                            #[trigger] forward_pass_rel(
                                stages@,
                                t_entry,
                                tf,
                                out.all_done,
                                out.advanced,
                            ) && tables_eqv(db.tables, tf));
                    }
                },
                Some(u) => {
                    assert forall|k: int|
                        0 <= k < n implies prog0(db.tables, (#[trigger] stages@[k]).spec_id())
                        <= u by {
                        assert(prog0(tfin, stages@[k].spec_id()) <= u);
                    }
                },
            }
        }
        Ok(out)
    }
}



} // verus!
