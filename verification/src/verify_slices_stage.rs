use crate::clock::now_timestamp;
use crate::header_slices::{count_matching, HeaderSlice, HeaderSliceStatus, HeaderSlices};
use crate::models::Header;
use crate::stage::StageError;
use rayon::iter::{IntoParallelRefIterator, ParallelIterator};
use vstd::prelude::*;

verus! {

/// The consensus parameters the slice verifier reads: gas-limit bounds,
/// the extra-data bound, and how far into the future a timestamp may
/// point.
#[derive(Clone, Copy, Debug, PartialEq, Eq, Structural)]
pub struct ChainSpec {
    pub min_gas_limit: u64,
    pub max_gas_limit: u64,
    pub max_extra_data_len: u64,
    pub max_future_drift: u64,
}

/// One header obeys the per-header rules: gas limit within the chain
/// bounds, extra data within its bound, timestamp not unreasonably in the
/// future.
pub open spec fn header_intrinsic_ok(h: Header, now: u64, cs: ChainSpec) -> bool {
    &&& cs.min_gas_limit <= h.gas_limit <= cs.max_gas_limit
    &&& h.extra_data_len <= cs.max_extra_data_len
    &&& h.timestamp <= now + cs.max_future_drift
}

/// Two adjacent headers chain: the child names the parent's hash, follows
/// it by one block, and is strictly younger.
pub open spec fn header_link_ok(prev: Header, h: Header) -> bool {
    &&& h.parent_hash == prev.hash
    &&& h.number == prev.number + 1
    &&& h.timestamp > prev.timestamp
}

/// A header range is internally consistent: non-empty, numbered from
/// `start`, each header intrinsically valid, and each adjacent pair
/// chained. The check is local: it never consults the canonical chain.
pub open spec fn slice_verifies(headers: Seq<Header>, start: u64, now: u64, cs: ChainSpec) -> bool {
    &&& headers.len() > 0
    &&& headers[0].number == start
    &&& forall|i: int|
        0 <= i < headers.len() ==> header_intrinsic_ok(#[trigger] headers[i], now, cs)
    &&& forall|i: int|
        1 <= i < headers.len() ==> header_link_ok(headers[i - 1], #[trigger] headers[i])
}

/// A slice verifies when its headers are present and internally
/// consistent; a slice without headers never verifies.
pub open spec fn slice_ok(slice: HeaderSlice, now: u64, cs: ChainSpec) -> bool {
    slice.headers matches Some(hs) && slice_verifies(hs@, slice.start_block_num, now, cs)
}

/// Every downloaded slice of `before` has been advanced to its terminal
/// verification status in `after`, as judged at time `t`; every other
/// slice is untouched.
pub open spec fn all_marked(
    before: Seq<HeaderSlice>,
    after: Seq<HeaderSlice>,
    t: u64,
    cs: ChainSpec,
) -> bool {
    &&& after.len() == before.len()
    &&& forall|i: int|
        0 <= i < before.len() ==> after[i] == if (#[trigger] before[i]).status
            == HeaderSliceStatus::Downloaded {
            marked(before[i], t, cs)
        } else {
            before[i]
        }
}

/// The slice after verification: the same slice, advanced to
/// `VerifiedInternally` or marked `Invalid`.
pub open spec fn marked(slice: HeaderSlice, now: u64, cs: ChainSpec) -> HeaderSlice {
    HeaderSlice {
        status: if slice_ok(slice, now, cs) {
            HeaderSliceStatus::VerifiedInternally
        } else {
            HeaderSliceStatus::Invalid
        },
        ..slice
    }
}

fn check_header_intrinsic(h: &Header, now: u64, cs: &ChainSpec) -> (r: bool)
    ensures
        r == header_intrinsic_ok(*h, now, *cs),
{
    let future_ok = match now.checked_add(cs.max_future_drift) {
        Some(lim) => h.timestamp <= lim,
        None => true,
    };
    h.gas_limit >= cs.min_gas_limit && h.gas_limit <= cs.max_gas_limit && h.extra_data_len
        <= cs.max_extra_data_len && future_ok
}

fn check_header_link(prev: &Header, h: &Header) -> (r: bool)
    ensures
        r == header_link_ok(*prev, *h),
{
    let number_ok = match prev.number.checked_add(1) {
        Some(next) => h.number == next,
        None => false,
    };
    h.parent_hash == prev.hash && number_ok && h.timestamp > prev.timestamp
}

/// Verify a header range against the slice rules.
pub fn verify_slice_headers(headers: &Vec<Header>, start: u64, now: u64, cs: &ChainSpec) -> (r:
    bool)
    ensures
        r == slice_verifies(headers@, start, now, *cs),
{
    let n = headers.len();
    if n == 0 {
        return false;
    }
    if headers[0].number != start {
        return false;
    }
    let mut i: usize = 0;
    while i < n
        invariant
            n == headers@.len(),
            0 <= i <= n,
            forall|j: int|
                0 <= j < i ==> header_intrinsic_ok(#[trigger] headers@[j], now, *cs),
            forall|j: int| 1 <= j < i ==> header_link_ok(headers@[j - 1], #[trigger] headers@[j]),
        decreases n - i,
    {
        if !check_header_intrinsic(&headers[i], now, cs) {
            return false;
        }
        if i > 0 {
            if !check_header_link(&headers[i - 1], &headers[i]) {
                return false;
            }
        }
        i += 1;
    }
    true
}

/// Verify one slice; a slice whose headers are absent (a race with a
/// reset) does not verify.
pub(crate) fn verify_header_slice(slice: &HeaderSlice, now: u64, cs: &ChainSpec) -> (r: bool)
    ensures
        r == slice_ok(*slice, now, *cs),
{
    match &slice.headers {
        Some(headers) => verify_slice_headers(headers, slice.start_block_num, now, cs),
        None => false,
    }
}

/// Relies on num_cpus::get for the number of available CPUs; nothing is
/// assumed of the value, callers clamp it themselves.
#[verifier::external_body]
fn available_cores() -> usize {
    num_cpus::get()
}

/// Relies on rayon's parallel iterators: `par_iter` over a `Vec` is an
/// indexed parallel iterator, `map` applies the given function to each
/// element, and collecting into a `Vec` keeps the input order. The mapped
/// function is this module's verified `verify_header_slice`.
#[verifier::external_body]
fn map_verify_parallel(
    slices: &Vec<HeaderSlice>,
    batch: &Vec<usize>,
    now: u64,
    cs: &ChainSpec,
) -> (r: Vec<bool>)
    requires
        forall|k: int| 0 <= k < batch@.len() ==> (#[trigger] batch@[k]) < slices@.len(),
    ensures
        r@.len() == batch@.len(),
        forall|k: int|
            0 <= k < batch@.len() ==> r@[k] == slice_ok(
                slices@[(#[trigger] batch@[k]) as int],
                now,
                *cs,
            ),
{
    batch.par_iter().map(|i: &usize| verify_header_slice(&slices[*i], now, cs)).collect()
}

/// Verifies the block structure and sequence rules in each downloaded
/// slice and advances it to `VerifiedInternally`, or marks it `Invalid`.
/// Slices are drained in batches of one per available CPU core and each
/// batch is verified in parallel; the verifier runs exactly once per
/// slice.
pub struct VerifySlicesStage {
    pub header_slices: HeaderSlices,
    pub chain_spec: ChainSpec,
    pub verify_invocations: u64,
}

impl VerifySlicesStage {
    pub open spec fn wf(&self) -> bool {
        self.header_slices.wf()
    }

    pub fn new(header_slices: HeaderSlices, chain_spec: ChainSpec) -> (r: VerifySlicesStage)
        ensures
            r.header_slices == header_slices,
            r.chain_spec == chain_spec,
            r.verify_invocations == 0,
    {
        VerifySlicesStage { header_slices, chain_spec, verify_invocations: 0 }
    }

    /// The slice window, for observers.
    pub fn slices(&self) -> (r: &HeaderSlices)
        ensures
            r == &self.header_slices,
    {
        &self.header_slices
    }

    /// Whether a forward call has pending work.
    pub fn can_proceed_check(&self) -> (r: bool)
        requires
            self.wf(),
        ensures
            r == (count_matching(self.header_slices@, HeaderSliceStatus::Downloaded) > 0),
    {
        self.header_slices.contains_status(HeaderSliceStatus::Downloaded)
    }

    /// Drain every downloaded slice: verify in parallel batches and assign
    /// the terminal statuses. Returns once no slice remains downloaded;
    /// when none is downloaded at entry it returns at once. Waiting for
    /// work to arrive is the driver's business.
    pub fn execute(&mut self) -> (r: Result<(), StageError>)
        requires
            old(self).wf(),
        ensures
            final(self).wf(),
            r is Ok,
            final(self).chain_spec == old(self).chain_spec,
            final(self).header_slices.slice_size == old(self).header_slices.slice_size,
            final(self).header_slices@.len() == old(self).header_slices@.len(),
            count_matching(final(self).header_slices@, HeaderSliceStatus::Downloaded) == 0,
            exists|t: u64| #[trigger] all_marked(
                old(self).header_slices@,
                final(self).header_slices@,
                t,
                old(self).chain_spec,
            ),
            final(self).verify_invocations == if old(self).verify_invocations + count_matching(
                old(self).header_slices@,
                HeaderSliceStatus::Downloaded,
            ) <= u64::MAX {
                (old(self).verify_invocations + count_matching(
                    old(self).header_slices@,
                    HeaderSliceStatus::Downloaded,
                )) as u64
            } else {
                u64::MAX
            },
    {
        let now = now_timestamp();
        let cores_raw = available_cores();
        let cores: usize = if cores_raw == 0 {
            1
        } else {
            cores_raw
        };
        self.verify_pending(cores, now);
        proof {
            assert(all_marked(
                old(self).header_slices@,
                self.header_slices@,
                now,
                old(self).chain_spec,
            ));
        }
        Ok(())
    }

    fn verify_pending(&mut self, cores: usize, now: u64)
        requires
            old(self).wf(),
            cores >= 1,
        ensures
            final(self).wf(),
            final(self).chain_spec == old(self).chain_spec,
            final(self).header_slices.slice_size == old(self).header_slices.slice_size,
            final(self).header_slices@.len() == old(self).header_slices@.len(),
            count_matching(final(self).header_slices@, HeaderSliceStatus::Downloaded) == 0,
            forall|i: int|
                0 <= i < old(self).header_slices@.len() ==> final(self).header_slices@[i]
                    == if (#[trigger] old(self).header_slices@[i]).status
                    == HeaderSliceStatus::Downloaded {
                    marked(old(self).header_slices@[i], now, old(self).chain_spec)
                } else {
                    old(self).header_slices@[i]
                },
            final(self).verify_invocations == if old(self).verify_invocations + count_matching(
                old(self).header_slices@,
                HeaderSliceStatus::Downloaded,
            ) <= u64::MAX {
                (old(self).verify_invocations + count_matching(
                    old(self).header_slices@,
                    HeaderSliceStatus::Downloaded,
                )) as u64
            } else {
                u64::MAX
            },
    {
        let ghost s0 = self.header_slices@;
        let ghost cs = self.chain_spec;
        let ghost inv0 = self.verify_invocations;
        let ghost d0 = count_matching(s0, HeaderSliceStatus::Downloaded);
        proof {
            crate::header_slices::lemma_count_matching_bounds(
                s0,
                HeaderSliceStatus::Downloaded,
            );
        }
        while self.header_slices.count_of(HeaderSliceStatus::Downloaded) > 0
            invariant
                self.wf(),
                cores >= 1,
                s0 == old(self).header_slices@,
                cs == old(self).chain_spec,
                inv0 == old(self).verify_invocations,
                d0 == count_matching(s0, HeaderSliceStatus::Downloaded),
                0 <= d0 <= s0.len(),
                self.chain_spec == cs,
                self.header_slices.slice_size == old(self).header_slices.slice_size,
                self.header_slices@.len() == s0.len(),
                forall|i: int|
                    0 <= i < s0.len() ==> (#[trigger] self.header_slices@[i] == s0[i] || (
                    s0[i].status == HeaderSliceStatus::Downloaded && self.header_slices@[i]
                        == marked(s0[i], now, cs))),
                forall|i: int|
                    0 <= i < s0.len() && (#[trigger] self.header_slices@[i]).status
                        == HeaderSliceStatus::Downloaded ==> self.header_slices@[i] == s0[i],
                0 <= count_matching(self.header_slices@, HeaderSliceStatus::Downloaded) <= d0,
                self.verify_invocations == if inv0 + (d0 - count_matching(
                    self.header_slices@,
                    HeaderSliceStatus::Downloaded,
                )) <= u64::MAX {
                    (inv0 + (d0 - count_matching(
                        self.header_slices@,
                        HeaderSliceStatus::Downloaded,
                    ))) as u64
                } else {
                    u64::MAX
                },
            decreases count_matching(self.header_slices@, HeaderSliceStatus::Downloaded),
        {
            let batch = self.header_slices.find_batch_by_status(
                HeaderSliceStatus::Downloaded,
                cores,
            );
            let results = map_verify_parallel(
                &self.header_slices.slices,
                &batch,
                now,
                &self.chain_spec,
            );
            let ghost s1 = self.header_slices@;
            let ghost d1 = count_matching(s1, HeaderSliceStatus::Downloaded);
            let bl = batch.len();
            let mut k: usize = 0;
            while k < bl
                invariant
                    self.wf(),
                    s0 == old(self).header_slices@,
                    cs == old(self).chain_spec,
                    d0 == count_matching(s0, HeaderSliceStatus::Downloaded),
                    0 <= d0 <= s0.len(),
                    self.chain_spec == cs,
                    self.header_slices.slice_size == old(self).header_slices.slice_size,
                    self.header_slices@.len() == s0.len(),
                    s1.len() == s0.len(),
                    bl == batch@.len(),
                    results@.len() == batch@.len(),
                    0 <= k <= bl,
                    forall|x: int|
                        0 <= x < batch@.len() ==> (#[trigger] batch@[x]) < s1.len()
                            && s1[batch@[x] as int].status == HeaderSliceStatus::Downloaded,
                    forall|x1: int, x2: int|
                        0 <= x1 < x2 < batch@.len() ==> batch@[x1] < batch@[x2],
                    forall|x: int|
                        0 <= x < batch@.len() ==> results@[x] == slice_ok(
                            s1[(#[trigger] batch@[x]) as int],
                            now,
                            cs,
                        ),
                    forall|i: int|
                        0 <= i < s0.len() && (forall|x: int|
                            0 <= x < k ==> (#[trigger] batch@[x]) != i) ==> self.header_slices@[i]
                            == s1[i],
                    forall|x: int|
                        0 <= x < k ==> self.header_slices@[(#[trigger] batch@[x]) as int]
                            == marked(s1[batch@[x] as int], now, cs),
                    forall|i: int|
                        0 <= i < s0.len() ==> (#[trigger] self.header_slices@[i] == s0[i] || (
                        s0[i].status == HeaderSliceStatus::Downloaded && self.header_slices@[i]
                            == marked(s0[i], now, cs))),
                    forall|i: int|
                        0 <= i < s0.len() && (#[trigger] self.header_slices@[i]).status
                            == HeaderSliceStatus::Downloaded ==> self.header_slices@[i] == s0[i],
                    forall|i: int|
                        0 <= i < s0.len() ==> (#[trigger] s1[i] == s0[i] || (s0[i].status
                            == HeaderSliceStatus::Downloaded && s1[i] == marked(s0[i], now, cs))),
                    forall|i: int|
                        0 <= i < s0.len() && (#[trigger] s1[i]).status
                            == HeaderSliceStatus::Downloaded ==> s1[i] == s0[i],
                    count_matching(self.header_slices@, HeaderSliceStatus::Downloaded) == d1 - k,
                    d1 <= d0,
                    self.verify_invocations == if inv0 + (d0 - (d1 - k)) <= u64::MAX {
                        (inv0 + (d0 - (d1 - k))) as u64
                    } else {
                        u64::MAX
                    },
                decreases bl - k,
            {
                let i = batch[k];
                let ok = results[k];
                proof {
                    assert(self.header_slices@[i as int] == s1[i as int]);
                    assert(s1[i as int].status == HeaderSliceStatus::Downloaded);
                }
                let new_status = if ok {
                    HeaderSliceStatus::VerifiedInternally
                } else {
                    HeaderSliceStatus::Invalid
                };
                self.header_slices.set_slice_status(i, new_status);
                self.verify_invocations = match self.verify_invocations.checked_add(1) {
                    Some(v) => v,
                    None => u64::MAX,
                };
                k += 1;
                proof {
                    assert(self.header_slices@[i as int] == marked(s1[i as int], now, cs));
                    assert(s1[i as int] == s0[i as int]);
                    assert(marked(s1[i as int], now, cs) == marked(s0[i as int], now, cs));
                }
            }
        }
        proof {
            assert forall|i: int| 0 <= i < s0.len() implies self.header_slices@[i] == if (
            s0[i]).status == HeaderSliceStatus::Downloaded {
                marked(s0[i], now, cs)
            } else {
                s0[i]
            } by {
                if s0[i].status == HeaderSliceStatus::Downloaded {
                    if self.header_slices@[i] == s0[i] {
                        crate::header_slices::lemma_count_matching_at(
                            self.header_slices@,
                            HeaderSliceStatus::Downloaded,
                            i,
                        );
                    }
                }
            }
        }
    }
}

} // verus!
