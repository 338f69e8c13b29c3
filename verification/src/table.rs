use vstd::prelude::*;

verus! {

/// The rows of a table, in storage order, have strictly ascending keys.
pub open spec fn keys_sorted<V>(s: Seq<(u64, V)>) -> bool {
    forall|i: int, j: int| 0 <= i < j < s.len() ==> s[i].0 < s[j].0
}

/// The value stored under key `k`, looked up from the back of the row
/// sequence, or `None` when no row carries that key.
pub open spec fn seq_get<V>(s: Seq<(u64, V)>, k: u64) -> Option<V>
    decreases s.len(),
{
    if s.len() == 0 {
        None
    } else if s.last().0 == k {
        Some(s.last().1)
    } else {
        seq_get(s.drop_last(), k)
    }
}

/// The index of the first row whose key is at least `k`; the row count when
/// every key is below `k`. On sorted rows this is the cut between the rows
/// that a walk from `k` skips and the rows it visits.
pub open spec fn cut_from<V>(s: Seq<(u64, V)>, k: int) -> int
    decreases s.len(),
{
    if s.len() == 0 {
        0
    } else if s[0].0 >= k {
        0
    } else {
        1 + cut_from(s.subrange(1, s.len() as int), k)
    }
}

/// Every key is at most `k`.
pub open spec fn keys_at_most<V>(s: Seq<(u64, V)>, k: u64) -> bool {
    forall|i: int| 0 <= i < s.len() ==> s[i].0 <= k
}

pub proof fn lemma_cut_from_bounds<V>(s: Seq<(u64, V)>, k: int)
    ensures
        0 <= cut_from(s, k) <= s.len(),
    decreases s.len(),
{
    if s.len() > 0 && s[0].0 < k {
        lemma_cut_from_bounds(s.subrange(1, s.len() as int), k);
    }
}

/// On sorted rows, the cut splits the keys below `k` from the keys at or
/// above `k`.
pub proof fn lemma_cut_from_split<V>(s: Seq<(u64, V)>, k: int)
    requires
        keys_sorted(s),
    ensures
        0 <= cut_from(s, k) <= s.len(),
        forall|i: int| 0 <= i < cut_from(s, k) ==> s[i].0 < k,
        forall|i: int| cut_from(s, k) <= i < s.len() ==> s[i].0 >= k,
    decreases s.len(),
{
    lemma_cut_from_bounds(s, k);
    if s.len() > 0 && s[0].0 < k {
        let t = s.subrange(1, s.len() as int);
        assert(keys_sorted(t)) by {
            assert(forall|i: int, j: int|
                0 <= i < j < t.len() ==> t[i] == s[i + 1] && t[j] == s[j + 1]);
        }
        lemma_cut_from_split(t, k);
        assert forall|i: int| 0 <= i < cut_from(s, k) implies s[i].0 < k by {
            if i > 0 {
                assert(t[i - 1] == s[i]);
            }
        }
        assert forall|i: int| cut_from(s, k) <= i < s.len() implies s[i].0 >= k by {
            assert(t[i - 1] == s[i]);
        }
    }
}

/// Rows whose adjacent keys ascend are sorted throughout.
pub proof fn lemma_ascending_pairs<V>(s: Seq<(u64, V)>)
    requires
        forall|j: int| 0 <= j < s.len() - 1 ==> #[trigger] s[j].0 < s[j + 1].0,
    ensures
        keys_sorted(s),
{
    assert forall|i: int, j: int| 0 <= i < j < s.len() implies s[i].0 < s[j].0 by {
        lemma_ascending_span(s, i, j);
    }
}

proof fn lemma_ascending_span<V>(s: Seq<(u64, V)>, i: int, j: int)
    requires
        forall|x: int| 0 <= x < s.len() - 1 ==> #[trigger] s[x].0 < s[x + 1].0,
        0 <= i < j < s.len(),
    ensures
        s[i].0 < s[j].0,
    decreases j - i,
{
    if i + 1 < j {
        lemma_ascending_span(s, i + 1, j);
    }
}

/// A higher threshold never moves the cut left.
pub proof fn lemma_cut_from_monotone<V>(s: Seq<(u64, V)>, k1: int, k2: int)
    requires
        keys_sorted(s),
        k1 <= k2,
    ensures
        cut_from(s, k1) <= cut_from(s, k2),
{
    lemma_cut_from_split(s, k1);
    lemma_cut_from_split(s, k2);
    if cut_from(s, k2) < cut_from(s, k1) {
        assert(s[cut_from(s, k2)].0 >= k2);
        assert(s[cut_from(s, k2)].0 < k1);
    }
}

/// The cut is the only index with keys below `k` before it and keys at or
/// above `k` from it on.
pub proof fn lemma_cut_from_unique<V>(s: Seq<(u64, V)>, k: int, c: int)
    requires
        keys_sorted(s),
        0 <= c <= s.len(),
        forall|i: int| 0 <= i < c ==> s[i].0 < k,
        c < s.len() ==> s[c as int].0 >= k,
    ensures
        cut_from(s, k) == c,
{
    lemma_cut_from_split(s, k);
    let d = cut_from(s, k);
    if d < c {
        assert(s[d].0 < k);
        assert(s[d].0 >= k);
    }
    if c < d {
        assert(s[c as int].0 < k);
    }
}

/// When some row at index `i` carries key `k`, the lookup returns that row's
/// value (keys are unique on sorted rows).
pub proof fn lemma_seq_get_at_index<V>(s: Seq<(u64, V)>, k: u64, i: int)
    requires
        keys_sorted(s),
        0 <= i < s.len(),
        s[i].0 == k,
    ensures
        seq_get(s, k) == Some(s[i].1),
    decreases s.len(),
{
    if i == s.len() - 1 {
    } else {
        assert(s.last().0 != k);
        assert(s.drop_last()[i] == s[i]);
        assert(keys_sorted(s.drop_last())) by {
            assert(forall|x: int, y: int|
                0 <= x < y < s.len() - 1 ==> s.drop_last()[x] == s[x] && s.drop_last()[y] == s[y]);
        }
        lemma_seq_get_at_index(s.drop_last(), k, i);
    }
}

/// When no row carries key `k`, the lookup misses.
pub proof fn lemma_seq_get_absent<V>(s: Seq<(u64, V)>, k: u64)
    requires
        forall|i: int| 0 <= i < s.len() ==> s[i].0 != k,
    ensures
        seq_get(s, k) is None,
    decreases s.len(),
{
    if s.len() > 0 {
        assert(forall|i: int| 0 <= i < s.len() - 1 ==> s.drop_last()[i] == s[i]);
        lemma_seq_get_absent(s.drop_last(), k);
    }
}

/// Every stored key fits in a `u64`, so a cut at `u64::MAX + 1` keeps the
/// whole table.
pub proof fn lemma_all_keys_below_max<V>(s: Seq<(u64, V)>)
    requires
        keys_sorted(s),
    ensures
        cut_from(s, u64::MAX as int + 1) == s.len(),
        s == s.subrange(0, cut_from(s, u64::MAX as int + 1)),
{
    lemma_cut_from_unique(s, u64::MAX as int + 1, s.len() as int);
    assert(s =~= s.subrange(0, s.len() as int));
}

/// A successful lookup names a stored row.
pub proof fn lemma_seq_get_some_index<V>(s: Seq<(u64, V)>, k: u64)
    requires
        seq_get(s, k) is Some,
    ensures
        exists|i: int| 0 <= i < s.len() && s[i] == (k, seq_get(s, k).unwrap()),
    decreases s.len(),
{
    if s.len() > 0 {
        if s.last().0 == k {
            assert(s[s.len() - 1] == (k, seq_get(s, k).unwrap()));
        } else {
            lemma_seq_get_some_index(s.drop_last(), k);
            let i = choose|i: int|
                0 <= i < s.drop_last().len() && s.drop_last()[i] == (
                k,
                seq_get(s.drop_last(), k).unwrap(),
                );
            assert(s[i] == (k, seq_get(s, k).unwrap()));
        }
    }
}

/// When every key is at most `k` and `k` is stored, the row under `k` is
/// the last row.
pub proof fn lemma_get_at_max_is_last<V>(s: Seq<(u64, V)>, k: u64)
    requires
        keys_sorted(s),
        keys_at_most(s, k),
        seq_get(s, k) is Some,
    ensures
        s.len() > 0,
        s.last() == (k, seq_get(s, k).unwrap()),
{
    lemma_seq_get_some_index(s, k);
    let i = choose|i: int| 0 <= i < s.len() && s[i] == (k, seq_get(s, k).unwrap());
    if i < s.len() - 1 {
        assert(s[i].0 < s[s.len() - 1].0);
        assert(s[s.len() - 1].0 <= k);
    }
}

/// An ordered single-key table: rows of `(key, value)` pairs held in
/// strictly ascending key order, the shape the sync stages require of every
/// store they append to. The model of the table is its row sequence.
pub struct Table<V> {
    pub rows: Vec<(u64, V)>,
}

impl<V> View for Table<V> {
    type V = Seq<(u64, V)>;

    open spec fn view(&self) -> Seq<(u64, V)> {
        self.rows@
    }
}

impl<V: Copy> Table<V> {
    /// Rows are in strictly ascending key order.
    pub open spec fn wf(&self) -> bool {
        keys_sorted(self@)
    }

    /// The value stored under `k`, as the model sees it.
    pub open spec fn spec_get(&self, k: u64) -> Option<V> {
        seq_get(self@, k)
    }

    pub fn new() -> (r: Table<V>)
        ensures
            r@ =~= Seq::<(u64, V)>::empty(),
            r.wf(),
    {
        Table { rows: Vec::new() }
    }

    pub fn len(&self) -> (r: usize)
        ensures
            r == self@.len(),
    {
        self.rows.len()
    }

    pub fn is_empty(&self) -> (r: bool)
        ensures
            r == (self@.len() == 0),
    {
        self.rows.len() == 0
    }

    /// The row at storage index `i`.
    pub fn row(&self, i: usize) -> (r: (u64, V))
        requires
            i < self@.len(),
        ensures
            r == self@[i as int],
    {
        self.rows[i]
    }

    pub fn first(&self) -> (r: Option<(u64, V)>)
        ensures
            match r {
                Some(p) => self@.len() > 0 && p == self@[0],
                None => self@.len() == 0,
            },
    {
        if self.rows.len() == 0 {
            None
        } else {
            Some(self.rows[0])
        }
    }

    pub fn last(&self) -> (r: Option<(u64, V)>)
        ensures
            match r {
                Some(p) => self@.len() > 0 && p == self@.last(),
                None => self@.len() == 0,
            },
    {
        if self.rows.len() == 0 {
            None
        } else {
            Some(self.rows[self.rows.len() - 1])
        }
    }

    /// Point lookup by key, by binary search over the sorted rows.
    pub fn get(&self, k: u64) -> (r: Option<V>)
        requires
            self.wf(),
        ensures
            r == self.spec_get(k),
    {
        let mut lo: usize = 0;
        let mut hi: usize = self.rows.len();
        while lo < hi
            invariant
                self.wf(),
                0 <= lo <= hi <= self@.len(),
                forall|j: int| 0 <= j < lo ==> (#[trigger] self@[j]).0 < k,
                forall|j: int| hi <= j < self@.len() ==> (#[trigger] self@[j]).0 > k,
            decreases hi - lo,
        {
            let mid = lo + (hi - lo) / 2;
            let key = self.rows[mid].0;
            if key == k {
                proof {
                    lemma_seq_get_at_index(self@, k, mid as int);
                }
                return Some(self.rows[mid].1);
            } else if key < k {
                lo = mid + 1;
                proof {
                    assert forall|j: int| 0 <= j < lo implies (#[trigger] self@[j]).0 < k by {
                        if j < mid {
                            assert(self@[j].0 < self@[mid as int].0);
                        }
                    }
                }
            } else {
                hi = mid;
                proof {
                    assert forall|j: int|
                        hi <= j < self@.len() implies (#[trigger] self@[j]).0 > k by {
                        if j > mid {
                            assert(self@[mid as int].0 < self@[j].0);
                        }
                    }
                }
            }
        }
        proof {
            assert forall|j: int| 0 <= j < self@.len() implies self@[j].0 != k by {
                assert(self@[j].0 < k || self@[j].0 > k);
            }
            lemma_seq_get_absent(self@, k);
        }
        None
    }

    /// The storage index where a walk from key `k` starts.
    pub fn index_from(&self, k: u64) -> (r: usize)
        requires
            self.wf(),
        ensures
            r == cut_from(self@, k as int),
    {
        let n = self.rows.len();
        let mut i: usize = 0;
        while i < n && self.rows[i].0 < k
            invariant
                n == self@.len(),
                self.wf(),
                0 <= i <= n,
                forall|j: int| 0 <= j < i ==> self@[j].0 < k,
            decreases n - i,
        {
            i += 1;
        }
        proof {
            lemma_cut_from_unique(self@, k as int, i as int);
        }
        i
    }

    /// Append a row; keys must arrive in strictly ascending order.
    pub fn append(&mut self, k: u64, v: V)
        requires
            old(self).wf(),
            old(self)@.len() > 0 ==> old(self)@.last().0 < k,
        ensures
            final(self)@ == old(self)@.push((k, v)),
            final(self).wf(),
    {
        self.rows.push((k, v));
        proof {
            assert forall|i: int, j: int| 0 <= i < j < self@.len() implies self@[i].0 < self@[j].0
            by {
                if j == self@.len() - 1 {
                    if i < old(self)@.len() - 1 {
                        assert(old(self)@[i].0 < old(self)@.last().0);
                    }
                } else {
                    assert(old(self)@[i].0 < old(self)@[j].0);
                }
            }
        }
    }

    /// Remove every row whose key is at least `k` (the unwind direction).
    pub fn truncate_from(&mut self, k: u64)
        requires
            old(self).wf(),
        ensures
            final(self)@ == old(self)@.subrange(0, cut_from(old(self)@, k as int)),
            final(self).wf(),
    {
        proof {
            lemma_cut_from_split(old(self)@, k as int);
        }
        let c = self.index_from(k);
        self.rows.truncate(c);
        proof {
            assert(self@ =~= old(self)@.subrange(0, cut_from(old(self)@, k as int)));
        }
    }

    /// Remove every row whose key is below `k` (the prune direction).
    pub fn drop_below(&mut self, k: u64)
        requires
            old(self).wf(),
        ensures
            final(self)@ == old(self)@.subrange(cut_from(old(self)@, k as int), old(self)@.len() as int),
            final(self).wf(),
    {
        proof {
            lemma_cut_from_split(old(self)@, k as int);
        }
        let c = self.index_from(k);
        let tail = self.rows.split_off(c);
        self.rows = tail;
        proof {
            assert(self@ =~= old(self)@.subrange(
                cut_from(old(self)@, k as int),
                old(self)@.len() as int,
            ));
            assert(keys_sorted(self@)) by {
                assert forall|i: int, j: int|
                    0 <= i < j < self@.len() implies self@[i].0 < self@[j].0 by {
                    assert(self@[i] == old(self)@[c + i]);
                    assert(self@[j] == old(self)@[c + j]);
                }
            }
        }
    }

    /// Decide whether the rows are in strictly ascending key order.
    pub fn check_sorted(&self) -> (r: bool)
        ensures
            r == self.wf(),
    {
        let n = self.rows.len();
        let mut i: usize = 1;
        while i < n
            invariant
                n == self@.len(),
                1 <= i || n == 0,
                i <= n || n == 0,
                forall|j: int| 0 <= j < i - 1 ==> #[trigger] self@[j].0 < self@[j + 1].0,
            decreases n - i,
        {
            if self.rows[i - 1].0 >= self.rows[i].0 {
                return false;
            }
            i += 1;
        }
        proof {
            lemma_ascending_pairs(self@);
        }
        true
    }

    /// Decide whether every key is at most `k`.
    pub fn check_keys_at_most(&self, k: u64) -> (r: bool)
        requires
            self.wf(),
        ensures
            r == keys_at_most(self@, k),
    {
        let n = self.rows.len();
        if n == 0 {
            return true;
        }
        if self.rows[n - 1].0 <= k {
            proof {
                assert forall|i: int| 0 <= i < self@.len() implies self@[i].0 <= k by {
                    if i < self@.len() - 1 {
                        assert(self@[i].0 < self@[self@.len() - 1].0);
                    }
                }
            }
            true
        } else {
            false
        }
    }

    /// An independent copy with the same rows.
    pub fn duplicate(&self) -> (r: Table<V>)
        ensures
            r@ == self@,
    {
        let mut rows: Vec<(u64, V)> = Vec::new();
        let n = self.rows.len();
        let mut i: usize = 0;
        while i < n
            invariant
                n == self@.len(),
                0 <= i <= n,
                rows@ =~= self@.subrange(0, i as int),
            decreases n - i,
        {
            rows.push(self.rows[i]);
            i += 1;
            proof {
                assert(rows@ =~= self@.subrange(0, i as int));
            }
        }
        proof {
            assert(rows@ =~= self@);
        }
        Table { rows }
    }
}

} // verus!
