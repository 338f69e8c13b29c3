use crate::stage_id::StageId;
use vstd::prelude::*;

verus! {

/// No stage identifier appears in two entries.
pub open spec fn prog_keys_unique(s: Seq<(StageId, u64)>) -> bool {
    forall|i: int, j: int| 0 <= i < j < s.len() ==> s[i].0 != s[j].0
}

/// The progress recorded for `id`, or `None` when the stage has never run.
pub open spec fn prog_get(s: Seq<(StageId, u64)>, id: StageId) -> Option<u64>
    decreases s.len(),
{
    if s.len() == 0 {
        None
    } else if s.last().0 == id {
        Some(s.last().1)
    } else {
        prog_get(s.drop_last(), id)
    }
}

pub proof fn lemma_prog_get_at_index(s: Seq<(StageId, u64)>, id: StageId, i: int)
    requires
        prog_keys_unique(s),
        0 <= i < s.len(),
        s[i].0 == id,
    ensures
        prog_get(s, id) == Some(s[i].1),
    decreases s.len(),
{
    if i < s.len() - 1 {
        assert(s.last().0 != id);
        assert(s.drop_last()[i] == s[i]);
        assert(forall|x: int| 0 <= x < s.len() - 1 ==> s.drop_last()[x] == s[x]);
        lemma_prog_get_at_index(s.drop_last(), id, i);
    }
}

pub proof fn lemma_prog_get_absent(s: Seq<(StageId, u64)>, id: StageId)
    requires
        forall|i: int| 0 <= i < s.len() ==> s[i].0 != id,
    ensures
        prog_get(s, id) is None,
    decreases s.len(),
{
    if s.len() > 0 {
        assert(forall|i: int| 0 <= i < s.len() - 1 ==> s.drop_last()[i] == s[i]);
        lemma_prog_get_absent(s.drop_last(), id);
    }
}

pub proof fn lemma_prog_get_push(s: Seq<(StageId, u64)>, id: StageId, v: u64, id2: StageId)
    ensures
        prog_get(s.push((id, v)), id2) == if id2 == id {
            Some(v)
        } else {
            prog_get(s, id2)
        },
{
    let t = s.push((id, v));
    assert(t.last() == (id, v));
    assert(t.drop_last() =~= s);
}

/// Replacing the entry at `i` changes the recorded progress of its stage and
/// of no other stage.
pub proof fn lemma_prog_get_update(s: Seq<(StageId, u64)>, i: int, v: u64, id2: StageId)
    requires
        prog_keys_unique(s),
        0 <= i < s.len(),
    ensures
        prog_get(s.update(i, (s[i].0, v)), id2) == if id2 == s[i].0 {
            Some(v)
        } else {
            prog_get(s, id2)
        },
    decreases s.len(),
{
    let t = s.update(i, (s[i].0, v));
    assert(t.len() == s.len());
    if i == s.len() - 1 {
        assert(t.last() == (s[i].0, v));
        assert(t.drop_last() =~= s.drop_last());
        if id2 != s[i].0 {
            assert(prog_get(s, id2) == prog_get(s.drop_last(), id2));
        }
    } else {
        assert(t.last() == s.last());
        assert(t.drop_last() =~= s.drop_last().update(i, (s[i].0, v)));
        assert(forall|x: int| 0 <= x < s.len() - 1 ==> s.drop_last()[x] == s[x]);
        assert(s.drop_last()[i] == s[i]);
        lemma_prog_get_update(s.drop_last(), i, v, id2);
        assert(s.last().0 != s[i].0);
    }
}

/// The persisted per-stage progress records. Entries are `(stage, block)`
/// pairs with unique stage identifiers; the record lives inside the same
/// transactional store as the stage data, so both commit atomically.
pub struct ProgressTable {
    pub rows: Vec<(StageId, u64)>,
}

impl View for ProgressTable {
    type V = Seq<(StageId, u64)>;

    open spec fn view(&self) -> Seq<(StageId, u64)> {
        self.rows@
    }
}

impl ProgressTable {
    pub open spec fn wf(&self) -> bool {
        prog_keys_unique(self@)
    }

    /// The progress recorded for `id`, as the model sees it.
    pub open spec fn spec_get(&self, id: StageId) -> Option<u64> {
        prog_get(self@, id)
    }

    pub fn new() -> (r: ProgressTable)
        ensures
            r@ =~= Seq::<(StageId, u64)>::empty(),
            r.wf(),
    {
        ProgressTable { rows: Vec::new() }
    }

    pub fn get(&self, id: StageId) -> (r: Option<u64>)
        requires
            self.wf(),
        ensures
            r == self.spec_get(id),
    {
        let n = self.rows.len();
        let mut i: usize = 0;
        while i < n
            invariant
                n == self@.len(),
                self.wf(),
                0 <= i <= n,
                forall|j: int| 0 <= j < i ==> self@[j].0 != id,
            decreases n - i,
        {
            if self.rows[i].0 == id {
                proof {
                    lemma_prog_get_at_index(self@, id, i as int);
                }
                return Some(self.rows[i].1);
            }
            i += 1;
        }
        proof {
            lemma_prog_get_absent(self@, id);
        }
        None
    }

    /// Record progress `v` for stage `id`, leaving every other stage's
    /// record unchanged. Re-recording the value already stored leaves the
    /// table untouched.
    pub fn set(&mut self, id: StageId, v: u64)
        requires
            old(self).wf(),
        ensures
            final(self).wf(),
            forall|id2: StageId|
                prog_get(final(self)@, id2) == if id2 == id {
                    Some(v)
                } else {
                    prog_get(old(self)@, id2)
                },
            old(self).spec_get(id) == Some(v) ==> final(self)@ == old(self)@,
    {
        let n = self.rows.len();
        let mut i: usize = 0;
        while i < n
            invariant
                n == self@.len(),
                self.wf(),
                0 <= i <= n,
                self@ == old(self)@,
                forall|j: int| 0 <= j < i ==> self@[j].0 != id,
            decreases n - i,
        {
            if self.rows[i].0 == id {
                proof {
                    lemma_prog_get_at_index(self@, id, i as int);
                }
                if self.rows[i].1 == v {
                    proof {
                        assert(self@.update(i as int, (id, v)) =~= self@);
                        assert forall|id2: StageId|
                            prog_get(self@, id2) == if id2 == id {
                                Some(v)
                            } else {
                                prog_get(old(self)@, id2)
                            } by {
                            lemma_prog_get_update(old(self)@, i as int, v, id2);
                        }
                    }
                    return ;
                }
                let ghost s0 = self@;
                self.rows.set(i, (id, v));
                proof {
                    assert(self@ =~= s0.update(i as int, (s0[i as int].0, v)));
                    assert forall|x: int, y: int|
                        0 <= x < y < self@.len() implies self@[x].0 != self@[y].0 by {
                        assert(self@[x].0 == s0[x].0 && self@[y].0 == s0[y].0);
                    }
                    assert forall|id2: StageId|
                        prog_get(self@, id2) == if id2 == id {
                            Some(v)
                        } else {
                            prog_get(old(self)@, id2)
                        } by {
                        lemma_prog_get_update(s0, i as int, v, id2);
                    }
                }
                return ;
            }
            i += 1;
        }
        let ghost s0 = self@;
        self.rows.push((id, v));
        proof {
            assert(prog_get(s0, id) is None) by {
                lemma_prog_get_absent(s0, id);
            }
            assert forall|x: int, y: int|
                0 <= x < y < self@.len() implies self@[x].0 != self@[y].0 by {
                if y < self@.len() - 1 {
                    assert(s0[x].0 != s0[y].0);
                } else {
                    assert(s0[x].0 != id);
                }
            }
            assert forall|id2: StageId|
                prog_get(self@, id2) == if id2 == id {
                    Some(v)
                } else {
                    prog_get(old(self)@, id2)
                } by {
                lemma_prog_get_push(s0, id, v, id2);
            }
        }
    }

    /// An independent copy with the same records.
    pub fn duplicate(&self) -> (r: ProgressTable)
        ensures
            r@ == self@,
    {
        let mut rows: Vec<(StageId, u64)> = Vec::new();
        let n = self.rows.len();
        let mut i: usize = 0;
        while i < n
            invariant
                n == self@.len(),
                0 <= i <= n,
                rows@ =~= self@.subrange(0, i as int),
            decreases n - i,
        {
            rows.push(self.rows[i]);
            i += 1;
            proof {
                assert(rows@ =~= self@.subrange(0, i as int));
            }
        }
        proof {
            assert(rows@ =~= self@);
        }
        ProgressTable { rows }
    }
}

} // verus!
