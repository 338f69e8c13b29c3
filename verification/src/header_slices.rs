use crate::models::Header;
use vstd::prelude::*;

verus! {

/// The lifecycle of one header slice, from an empty window position
/// through download and the two verification steps to being persisted.
#[derive(Clone, Copy, Debug, PartialEq, Eq, Structural, Hash)]
pub enum HeaderSliceStatus {
    /// Nothing requested for this window position yet.
    Empty,
    /// Headers requested from a peer, not yet arrived.
    Requested,
    /// Headers arrived and await internal verification.
    Downloaded,
    /// The slice is internally consistent.
    VerifiedInternally,
    /// The slice failed internal verification.
    Invalid,
    /// The slice links to its neighbours on the canonical chain.
    VerifiedLinked,
    /// The slice has been persisted.
    Saved,
    /// The slice must be fetched again from another peer.
    Refetch,
}

/// A fixed-size contiguous range of headers, anchored at
/// `start_block_num`.
pub struct HeaderSlice {
    pub start_block_num: u64,
    pub status: HeaderSliceStatus,
    pub headers: Option<Vec<Header>>,
    pub request_time: Option<u64>,
    pub request_attempt: u64,
}

impl HeaderSlice {
    /// The statuses in which a slice holds its headers.
    pub open spec fn has_headers_status(status: HeaderSliceStatus) -> bool {
        match status {
            HeaderSliceStatus::Downloaded => true,
            HeaderSliceStatus::VerifiedInternally => true,
            HeaderSliceStatus::Invalid => true,
            HeaderSliceStatus::VerifiedLinked => true,
            HeaderSliceStatus::Saved => true,
            _ => false,
        }
    }

    /// The status always reflects the presence of headers, and a present
    /// range is non-empty and no longer than the slice size.
    pub open spec fn wf(&self, slice_size: u64) -> bool {
        &&& (self.headers is Some <==> Self::has_headers_status(self.status))
        &&& (self.headers matches Some(hs) ==> 1 <= hs@.len() <= slice_size)
    }
}

/// Per-status slice counts; the container keeps them in step with the
/// slices themselves.
#[derive(Clone, Copy, Debug, PartialEq, Eq, Structural)]
pub struct StatusCounts {
    pub empty: usize,
    pub requested: usize,
    pub downloaded: usize,
    pub verified_internally: usize,
    pub invalid: usize,
    pub verified_linked: usize,
    pub saved: usize,
    pub refetch: usize,
}

impl StatusCounts {
    pub open spec fn count(&self, status: HeaderSliceStatus) -> usize {
        match status {
            HeaderSliceStatus::Empty => self.empty,
            HeaderSliceStatus::Requested => self.requested,
            HeaderSliceStatus::Downloaded => self.downloaded,
            HeaderSliceStatus::VerifiedInternally => self.verified_internally,
            HeaderSliceStatus::Invalid => self.invalid,
            HeaderSliceStatus::VerifiedLinked => self.verified_linked,
            HeaderSliceStatus::Saved => self.saved,
            HeaderSliceStatus::Refetch => self.refetch,
        }
    }

    pub fn zero() -> (r: StatusCounts)
        ensures
            forall|st: HeaderSliceStatus| r.count(st) == 0,
    {
        StatusCounts {
            empty: 0,
            requested: 0,
            downloaded: 0,
            verified_internally: 0,
            invalid: 0,
            verified_linked: 0,
            saved: 0,
            refetch: 0,
        }
    }
}

/// How many slices carry the given status.
pub open spec fn count_matching(s: Seq<HeaderSlice>, status: HeaderSliceStatus) -> int
    decreases s.len(),
{
    if s.len() == 0 {
        0
    } else {
        count_matching(s.drop_last(), status) + if s.last().status == status {
            1int
        } else {
            0int
        }
    }
}

pub proof fn lemma_count_matching_bounds(s: Seq<HeaderSlice>, status: HeaderSliceStatus)
    ensures
        0 <= count_matching(s, status) <= s.len(),
    decreases s.len(),
{
    if s.len() > 0 {
        lemma_count_matching_bounds(s.drop_last(), status);
    }
}

/// A slice with the status contributes one to the count; a slice without
/// it leaves room below the length.
pub proof fn lemma_count_matching_at(s: Seq<HeaderSlice>, status: HeaderSliceStatus, i: int)
    requires
        0 <= i < s.len(),
    ensures
        s[i].status == status ==> count_matching(s, status) >= 1,
        s[i].status != status ==> count_matching(s, status) <= s.len() - 1,
    decreases s.len(),
{
    lemma_count_matching_bounds(s.drop_last(), status);
    if i == s.len() - 1 {
    } else {
        assert(s.drop_last()[i] == s[i]);
        lemma_count_matching_at(s.drop_last(), status, i);
    }
}

/// Replacing the slice at `i` moves one count from its old status to its
/// new one.
pub proof fn lemma_count_matching_update(
    s: Seq<HeaderSlice>,
    i: int,
    x: HeaderSlice,
    status: HeaderSliceStatus,
)
    requires
        0 <= i < s.len(),
    ensures
        count_matching(s.update(i, x), status) == count_matching(s, status) + (if x.status
            == status {
            1int
        } else {
            0int
        }) - (if s[i].status == status {
            1int
        } else {
            0int
        }),
    decreases s.len(),
{
    let t = s.update(i, x);
    if i == s.len() - 1 {
        assert(t.drop_last() =~= s.drop_last());
    } else {
        assert(t.drop_last() =~= s.drop_last().update(i, x));
        assert(s.drop_last()[i] == s[i]);
        lemma_count_matching_update(s.drop_last(), i, x, status);
        assert(t.last() == s.last());
    }
}

pub proof fn lemma_count_matching_push(
    s: Seq<HeaderSlice>,
    x: HeaderSlice,
    status: HeaderSliceStatus,
)
    ensures
        count_matching(s.push(x), status) == count_matching(s, status) + if x.status == status {
            1int
        } else {
            0int
        },
{
    assert(s.push(x).drop_last() =~= s);
}


/// Counting from the front: the first slice contributes its match and the
/// rest count on their own.
pub proof fn lemma_count_matching_drop_first(s: Seq<HeaderSlice>, status: HeaderSliceStatus)
    requires
        s.len() > 0,
    ensures
        count_matching(s, status) == count_matching(s.subrange(1, s.len() as int), status) + if
            s[0].status == status {
            1int
        } else {
            0int
        },
    decreases s.len(),
{
    if s.len() == 1 {
        assert(s.subrange(1, 1) =~= Seq::<HeaderSlice>::empty());
        assert(s.drop_last() =~= Seq::<HeaderSlice>::empty());
        assert(s.last() == s[0]);
    } else {
        let sub = s.subrange(1, s.len() as int);
        lemma_count_matching_drop_first(s.drop_last(), status);
        assert(s.drop_last().subrange(1, s.len() - 1) =~= sub.drop_last());
        assert(s.drop_last()[0] == s[0]);
        assert(sub.last() == s.last());
        assert(count_matching(s, status) == count_matching(s.drop_last(), status) + if s.last().status
            == status {
            1int
        } else {
            0int
        });
        assert(count_matching(sub, status) == count_matching(sub.drop_last(), status) + if sub.last().status
            == status {
            1int
        } else {
            0int
        });
    }
}

/// The sliding window of header slices: an ordered set of contiguous
/// slices together with the per-status counts. Every transition goes
/// through `set_slice_status`, which keeps the counts exact.
pub struct HeaderSlices {
    pub slices: Vec<HeaderSlice>,
    pub counts: StatusCounts,
    pub slice_size: u64,
}

impl View for HeaderSlices {
    type V = Seq<HeaderSlice>;

    open spec fn view(&self) -> Seq<HeaderSlice> {
        self.slices@
    }
}

impl HeaderSlices {
    /// Slices are well formed, sit at contiguous ascending anchors, and the
    /// counts agree with the statuses.
    pub open spec fn wf(&self) -> bool {
        &&& self.slice_size >= 1
        &&& forall|i: int| 0 <= i < self@.len() ==> (#[trigger] self@[i]).wf(self.slice_size)
        &&& forall|i: int|
            0 <= i < self@.len() - 1 ==> (#[trigger] self@[i + 1]).start_block_num == self@[i].start_block_num
                + self.slice_size
        &&& forall|st: HeaderSliceStatus| #[trigger] self.counts.count(st) == count_matching(
            self@,
            st,
        )
    }

    pub fn new(slice_size: u64) -> (r: HeaderSlices)
        requires
            slice_size >= 1,
        ensures
            r.wf(),
            r@ =~= Seq::<HeaderSlice>::empty(),
            r.slice_size == slice_size,
    {
        HeaderSlices { slices: Vec::new(), counts: StatusCounts::zero(), slice_size }
    }

    pub fn len(&self) -> (r: usize)
        ensures
            r == self@.len(),
    {
        self.slices.len()
    }

    /// The count the container keeps for `status`.
    pub fn count_of(&self, status: HeaderSliceStatus) -> (r: usize)
        requires
            self.wf(),
        ensures
            r == count_matching(self@, status),
    {
        proof {
            assert(self.counts.count(status) == count_matching(self@, status));
        }
        match status {
            HeaderSliceStatus::Empty => self.counts.empty,
            HeaderSliceStatus::Requested => self.counts.requested,
            HeaderSliceStatus::Downloaded => self.counts.downloaded,
            HeaderSliceStatus::VerifiedInternally => self.counts.verified_internally,
            HeaderSliceStatus::Invalid => self.counts.invalid,
            HeaderSliceStatus::VerifiedLinked => self.counts.verified_linked,
            HeaderSliceStatus::Saved => self.counts.saved,
            HeaderSliceStatus::Refetch => self.counts.refetch,
        }
    }

    /// Whether any slice currently carries `status`.
    pub fn contains_status(&self, status: HeaderSliceStatus) -> (r: bool)
        requires
            self.wf(),
        ensures
            r == (count_matching(self@, status) > 0),
    {
        self.count_of(status) > 0
    }

    /// Append a slice at the next window anchor.
    pub fn append_slice(&mut self, slice: HeaderSlice)
        requires
            old(self).wf(),
            slice.wf(old(self).slice_size),
            old(self)@.len() < usize::MAX,
            old(self)@.len() > 0 ==> slice.start_block_num == old(self)@.last().start_block_num
                + old(self).slice_size,
        ensures
            final(self).wf(),
            final(self)@ == old(self)@.push(slice),
            final(self).slice_size == old(self).slice_size,
            forall|st: HeaderSliceStatus| #[trigger] final(self).counts.count(st)
                == old(self).counts.count(st) + (if slice.status == st {
                1int
            } else {
                0int
            }),
    {
        proof {
            lemma_count_matching_bounds(self@, slice.status);
            lemma_count_matching_push(self@, slice, slice.status);
        }
        let status = slice.status;
        self.slices.push(slice);
        self.counts = Self::bump(self.counts, status);
        proof {
            assert forall|st: HeaderSliceStatus| #[trigger] self.counts.count(st) == count_matching(
                self@,
                st,
            ) by {
                lemma_count_matching_push(old(self)@, slice, st);
            }
            assert forall|i: int|
                0 <= i < self@.len() - 1 implies (#[trigger] self@[i + 1]).start_block_num
                == self@[i].start_block_num + self.slice_size by {
                if i < self@.len() - 2 {
                    assert(old(self)@[i + 1].start_block_num == old(self)@[i].start_block_num
                        + old(self).slice_size);
                }
            }
        }
    }

    fn bump(counts: StatusCounts, status: HeaderSliceStatus) -> (r: StatusCounts)
        requires
            counts.count(status) < usize::MAX,
        ensures
            forall|st: HeaderSliceStatus| #[trigger] r.count(st) == counts.count(st) + (if st
                == status {
                1int
            } else {
                0int
            }),
    {
        let mut c = counts;
        match status {
            HeaderSliceStatus::Empty => {
                c.empty = c.empty + 1;
            },
            HeaderSliceStatus::Requested => {
                c.requested = c.requested + 1;
            },
            HeaderSliceStatus::Downloaded => {
                c.downloaded = c.downloaded + 1;
            },
            HeaderSliceStatus::VerifiedInternally => {
                c.verified_internally = c.verified_internally + 1;
            },
            HeaderSliceStatus::Invalid => {
                c.invalid = c.invalid + 1;
            },
            HeaderSliceStatus::VerifiedLinked => {
                c.verified_linked = c.verified_linked + 1;
            },
            HeaderSliceStatus::Saved => {
                c.saved = c.saved + 1;
            },
            HeaderSliceStatus::Refetch => {
                c.refetch = c.refetch + 1;
            },
        }
        c
    }

    fn drop_one(counts: StatusCounts, status: HeaderSliceStatus) -> (r: StatusCounts)
        requires
            counts.count(status) >= 1,
        ensures
            forall|st: HeaderSliceStatus| #[trigger] r.count(st) == counts.count(st) - (if st
                == status {
                1int
            } else {
                0int
            }),
    {
        let mut c = counts;
        match status {
            HeaderSliceStatus::Empty => {
                c.empty = c.empty - 1;
            },
            HeaderSliceStatus::Requested => {
                c.requested = c.requested - 1;
            },
            HeaderSliceStatus::Downloaded => {
                c.downloaded = c.downloaded - 1;
            },
            HeaderSliceStatus::VerifiedInternally => {
                c.verified_internally = c.verified_internally - 1;
            },
            HeaderSliceStatus::Invalid => {
                c.invalid = c.invalid - 1;
            },
            HeaderSliceStatus::VerifiedLinked => {
                c.verified_linked = c.verified_linked - 1;
            },
            HeaderSliceStatus::Saved => {
                c.saved = c.saved - 1;
            },
            HeaderSliceStatus::Refetch => {
                c.refetch = c.refetch - 1;
            },
        }
        c
    }

    /// Move the slice at `i` to `new_status`. The count of the old status
    /// falls by one and the count of the new status rises by one; every
    /// other count, and the total, stays put.
    pub fn set_slice_status(&mut self, i: usize, new_status: HeaderSliceStatus)
        requires
            old(self).wf(),
            i < old(self)@.len(),
            HeaderSlice::has_headers_status(new_status) == HeaderSlice::has_headers_status(
                old(self)@[i as int].status,
            ),
        ensures
            final(self).wf(),
            final(self).slice_size == old(self).slice_size,
            final(self)@.len() == old(self)@.len(),
            final(self)@ == old(self)@.update(
                i as int,
                HeaderSlice {
                    status: new_status,
                    ..old(self)@[i as int]
                },
            ),
            old(self)@[i as int].status != new_status ==> {
                &&& final(self).counts.count(new_status) == old(self).counts.count(new_status) + 1
                &&& final(self).counts.count(old(self)@[i as int].status)
                    == old(self).counts.count(old(self)@[i as int].status) - 1
                &&& forall|st: HeaderSliceStatus|
                    st != new_status && st != old(self)@[i as int].status
                        ==> #[trigger] final(self).counts.count(st)
                        == old(self).counts.count(st)
            },
            old(self)@[i as int].status == new_status ==> final(self).counts == old(self).counts,
    {
        let old_status = self.slices[i].status;
        let n = self.slices.len();
        let ghost s0 = self@;
        proof {
            lemma_count_matching_at(s0, old_status, i as int);
            lemma_count_matching_at(s0, new_status, i as int);
            lemma_count_matching_bounds(s0, new_status);
            assert(old(self).counts.count(old_status) == count_matching(s0, old_status));
            assert(old(self).counts.count(new_status) == count_matching(s0, new_status));
            assert(n <= usize::MAX);
        }
        let old_slice = self.slices.remove(i);
        let updated = HeaderSlice {
            status: new_status,
            start_block_num: old_slice.start_block_num,
            headers: old_slice.headers,
            request_time: old_slice.request_time,
            request_attempt: old_slice.request_attempt,
        };
        self.slices.insert(i, updated);
        let ghost up = HeaderSlice { status: new_status, ..s0[i as int] };
        proof {
            assert(self@ =~= s0.update(i as int, up));
        }
        if old_status != new_status {
            self.counts = Self::drop_one(self.counts, old_status);
            self.counts = Self::bump(self.counts, new_status);
        }
        proof {
            assert forall|j: int| 0 <= j < self@.len() implies (#[trigger] self@[j]).wf(
                self.slice_size,
            ) by {
                if j != i {
                    assert(self@[j] == s0[j]);
                    assert(s0[j].wf(self.slice_size));
                } else {
                    assert(s0[j].wf(self.slice_size));
                }
            }
            assert forall|j: int|
                0 <= j < self@.len() - 1 implies (#[trigger] self@[j + 1]).start_block_num
                == self@[j].start_block_num + self.slice_size by {
                assert(s0[j + 1].start_block_num == s0[j].start_block_num + self.slice_size);
            }
            assert forall|st: HeaderSliceStatus| #[trigger] self.counts.count(st) == count_matching(
                self@,
                st,
            ) by {
                lemma_count_matching_update(s0, i as int, up, st);
            }
        }
    }


    /// A requested slice's headers arrived: attach them and mark the slice
    /// downloaded. The count of the old status falls by one and the
    /// downloaded count rises by one.
    pub fn set_slice_downloaded(&mut self, i: usize, headers: Vec<Header>)
        requires
            old(self).wf(),
            i < old(self)@.len(),
            !HeaderSlice::has_headers_status(old(self)@[i as int].status),
            1 <= headers@.len() <= old(self).slice_size,
        ensures
            final(self).wf(),
            final(self).slice_size == old(self).slice_size,
            final(self)@.len() == old(self)@.len(),
            final(self)@ == old(self)@.update(
                i as int,
                HeaderSlice {
                    status: HeaderSliceStatus::Downloaded,
                    headers: Some(headers),
                    ..old(self)@[i as int]
                },
            ),
            final(self).counts.count(HeaderSliceStatus::Downloaded) == old(self).counts.count(
                HeaderSliceStatus::Downloaded,
            ) + 1,
            final(self).counts.count(old(self)@[i as int].status) == old(self).counts.count(
                old(self)@[i as int].status,
            ) - 1,
            forall|st: HeaderSliceStatus|
                st != HeaderSliceStatus::Downloaded && st != old(self)@[i as int].status
                    ==> #[trigger] final(self).counts.count(st) == old(self).counts.count(st),
    {
        let old_status = self.slices[i].status;
        let n = self.slices.len();
        let ghost s0 = self@;
        proof {
            lemma_count_matching_at(s0, old_status, i as int);
            lemma_count_matching_at(s0, HeaderSliceStatus::Downloaded, i as int);
            lemma_count_matching_bounds(s0, HeaderSliceStatus::Downloaded);
            assert(n <= usize::MAX);
        }
        let old_slice = self.slices.remove(i);
        let updated = HeaderSlice {
            status: HeaderSliceStatus::Downloaded,
            start_block_num: old_slice.start_block_num,
            headers: Some(headers),
            request_time: old_slice.request_time,
            request_attempt: old_slice.request_attempt,
        };
        self.slices.insert(i, updated);
        let ghost up = HeaderSlice {
            status: HeaderSliceStatus::Downloaded,
            headers: Some(headers),
            ..s0[i as int]
        };
        proof {
            assert(self@ =~= s0.update(i as int, up));
        }
        self.counts = Self::drop_one(self.counts, old_status);
        self.counts = Self::bump(self.counts, HeaderSliceStatus::Downloaded);
        proof {
            assert forall|j: int| 0 <= j < self@.len() implies (#[trigger] self@[j]).wf(
                self.slice_size,
            ) by {
                if j != i {
                    assert(self@[j] == s0[j]);
                }
                assert(s0[j].wf(self.slice_size));
            }
            assert forall|j: int|
                0 <= j < self@.len() - 1 implies (#[trigger] self@[j + 1]).start_block_num
                == self@[j].start_block_num + self.slice_size by {
                assert(s0[j + 1].start_block_num == s0[j].start_block_num + self.slice_size);
            }
            assert forall|st: HeaderSliceStatus| #[trigger] self.counts.count(st) == count_matching(
                self@,
                st,
            ) by {
                lemma_count_matching_update(s0, i as int, up, st);
            }
        }
    }

    /// An invalid slice is reset so another peer can be asked: drop its
    /// headers and mark the position empty. The count of the old status
    /// falls by one and the empty count rises by one.
    pub fn reset_slice(&mut self, i: usize)
        requires
            old(self).wf(),
            i < old(self)@.len(),
            HeaderSlice::has_headers_status(old(self)@[i as int].status),
        ensures
            final(self).wf(),
            final(self).slice_size == old(self).slice_size,
            final(self)@.len() == old(self)@.len(),
            final(self)@ == old(self)@.update(
                i as int,
                HeaderSlice {
                    status: HeaderSliceStatus::Empty,
                    headers: None,
                    ..old(self)@[i as int]
                },
            ),
            final(self).counts.count(HeaderSliceStatus::Empty) == old(self).counts.count(
                HeaderSliceStatus::Empty,
            ) + 1,
            final(self).counts.count(old(self)@[i as int].status) == old(self).counts.count(
                old(self)@[i as int].status,
            ) - 1,
            forall|st: HeaderSliceStatus|
                st != HeaderSliceStatus::Empty && st != old(self)@[i as int].status
                    ==> #[trigger] final(self).counts.count(st) == old(self).counts.count(st),
    {
        let old_status = self.slices[i].status;
        let n = self.slices.len();
        let ghost s0 = self@;
        proof {
            lemma_count_matching_at(s0, old_status, i as int);
            lemma_count_matching_at(s0, HeaderSliceStatus::Empty, i as int);
            lemma_count_matching_bounds(s0, HeaderSliceStatus::Empty);
            assert(n <= usize::MAX);
        }
        let old_slice = self.slices.remove(i);
        let updated = HeaderSlice {
            status: HeaderSliceStatus::Empty,
            start_block_num: old_slice.start_block_num,
            headers: None,
            request_time: old_slice.request_time,
            request_attempt: old_slice.request_attempt,
        };
        self.slices.insert(i, updated);
        let ghost up = HeaderSlice { status: HeaderSliceStatus::Empty, headers: None, ..s0[i as int] };
        proof {
            assert(self@ =~= s0.update(i as int, up));
        }
        self.counts = Self::drop_one(self.counts, old_status);
        self.counts = Self::bump(self.counts, HeaderSliceStatus::Empty);
        proof {
            assert forall|j: int| 0 <= j < self@.len() implies (#[trigger] self@[j]).wf(
                self.slice_size,
            ) by {
                if j != i {
                    assert(self@[j] == s0[j]);
                }
                assert(s0[j].wf(self.slice_size));
            }
            assert forall|j: int|
                0 <= j < self@.len() - 1 implies (#[trigger] self@[j + 1]).start_block_num
                == self@[j].start_block_num + self.slice_size by {
                assert(s0[j + 1].start_block_num == s0[j].start_block_num + self.slice_size);
            }
            assert forall|st: HeaderSliceStatus| #[trigger] self.counts.count(st) == count_matching(
                self@,
                st,
            ) by {
                lemma_count_matching_update(s0, i as int, up, st);
            }
        }
    }

    /// Slide the window: the saved slice at the front leaves and an empty
    /// position is appended at the next anchor. The saved count falls by
    /// one, the empty count rises by one, and the total stays put.
    pub fn slide(&mut self)
        requires
            old(self).wf(),
            old(self)@.len() > 0,
            old(self)@[0].status == HeaderSliceStatus::Saved,
            old(self)@.last().start_block_num + old(self).slice_size <= u64::MAX,
        ensures
            final(self).wf(),
            final(self).slice_size == old(self).slice_size,
            final(self)@.len() == old(self)@.len(),
            final(self)@ == old(self)@.subrange(1, old(self)@.len() as int).push(
                HeaderSlice {
                    start_block_num: (old(self)@.last().start_block_num
                        + old(self).slice_size) as u64,
                    status: HeaderSliceStatus::Empty,
                    headers: None,
                    request_time: None,
                    request_attempt: 0,
                },
            ),
            final(self).counts.count(HeaderSliceStatus::Saved) == old(self).counts.count(
                HeaderSliceStatus::Saved,
            ) - 1,
            final(self).counts.count(HeaderSliceStatus::Empty) == old(self).counts.count(
                HeaderSliceStatus::Empty,
            ) + 1,
            forall|st: HeaderSliceStatus|
                st != HeaderSliceStatus::Empty && st != HeaderSliceStatus::Saved
                    ==> #[trigger] final(self).counts.count(st) == old(self).counts.count(st),
    {
        let ghost s0 = self@;
        let n = self.slices.len();
        let next_start = self.slices[n - 1].start_block_num + self.slice_size;
        proof {
            lemma_count_matching_at(s0, HeaderSliceStatus::Saved, 0);
            lemma_count_matching_bounds(s0, HeaderSliceStatus::Empty);
            lemma_count_matching_at(s0, HeaderSliceStatus::Empty, 0);
        }
        self.slices.remove(0);
        let fresh = HeaderSlice {
            start_block_num: next_start,
            status: HeaderSliceStatus::Empty,
            headers: None,
            request_time: None,
            request_attempt: 0,
        };
        self.slices.push(fresh);
        self.counts = Self::drop_one(self.counts, HeaderSliceStatus::Saved);
        self.counts = Self::bump(self.counts, HeaderSliceStatus::Empty);
        proof {
            let tail = s0.subrange(1, s0.len() as int);
            assert(self@ =~= tail.push(fresh));
            assert forall|j: int| 0 <= j < self@.len() implies (#[trigger] self@[j]).wf(
                self.slice_size,
            ) by {
                if j < self@.len() - 1 {
                    assert(self@[j] == s0[j + 1]);
                    assert(s0[j + 1].wf(self.slice_size));
                }
            }
            assert forall|j: int|
                0 <= j < self@.len() - 1 implies (#[trigger] self@[j + 1]).start_block_num
                == self@[j].start_block_num + self.slice_size by {
                if j + 1 < self@.len() - 1 {
                    assert(self@[j] == s0[j + 1] && self@[j + 1] == s0[j + 2]);
                    assert(s0[(j + 1) + 1].start_block_num == s0[j + 1].start_block_num
                        + self.slice_size);
                } else {
                    assert(self@[j] == s0[j + 1]);
                    assert(s0[j + 1] == s0.last());
                }
            }
            assert forall|st: HeaderSliceStatus| #[trigger] self.counts.count(st) == count_matching(
                self@,
                st,
            ) by {
                lemma_count_matching_drop_first(s0, st);
                lemma_count_matching_push(tail, fresh, st);
            }
        }
    }

    /// The storage indices of the first slices carrying `status`, at most
    /// `n` of them, in window order.
    pub fn find_batch_by_status(&self, status: HeaderSliceStatus, n: usize) -> (r: Vec<usize>)
        requires
            self.wf(),
        ensures
            r@.len() == if count_matching(self@, status) <= n {
                count_matching(self@, status)
            } else {
                n as int
            },
            forall|k: int|
                0 <= k < r@.len() ==> (#[trigger] r@[k]) < self@.len() && self@[r@[k] as int].status
                    == status,
            forall|k1: int, k2: int| 0 <= k1 < k2 < r@.len() ==> r@[k1] < r@[k2],
    {
        let mut out: Vec<usize> = Vec::new();
        let len = self.slices.len();
        let mut i: usize = 0;
        while i < len && out.len() < n
            invariant
                self.wf(),
                len == self@.len(),
                0 <= i <= len,
                out@.len() <= n,
                forall|k: int|
                    0 <= k < out@.len() ==> (#[trigger] out@[k]) < i && self@[out@[k] as int].status
                        == status,
                forall|k1: int, k2: int| 0 <= k1 < k2 < out@.len() ==> out@[k1] < out@[k2],
                out@.len() == if count_matching(self@.subrange(0, i as int), status) <= n {
                    count_matching(self@.subrange(0, i as int), status)
                } else {
                    n as int
                },
            decreases len - i,
        {
            proof {
                assert(self@.subrange(0, i + 1).drop_last() =~= self@.subrange(0, i as int));
                lemma_count_matching_bounds(self@.subrange(0, i as int), status);
            }
            if self.slices[i].status == status {
                out.push(i);
            }
            i += 1;
        }
        proof {
            if i == len {
                assert(self@.subrange(0, len as int) =~= self@);
            } else {
                lemma_count_matching_bounds(self@, status);
                lemma_prefix_count_le(self@, status, i as int);
            }
        }
        out
    }
}

/// A prefix never holds more matches than the whole window.
proof fn lemma_prefix_count_le(s: Seq<HeaderSlice>, status: HeaderSliceStatus, i: int)
    requires
        0 <= i <= s.len(),
    ensures
        count_matching(s.subrange(0, i), status) <= count_matching(s, status),
    decreases s.len() - i,
{
    if i < s.len() {
        assert(s.subrange(0, i + 1).drop_last() =~= s.subrange(0, i));
        lemma_prefix_count_le(s, status, i + 1);
    } else {
        assert(s.subrange(0, i) =~= s);
    }
}


} // verus!
