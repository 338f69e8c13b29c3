use vstd::prelude::*;

verus! {

/// Relies on std::time::SystemTime::now: seconds elapsed since the Unix
/// epoch, zero if the clock reads before the epoch. Nothing is promised of
/// the value: callers must be correct for every reading.
#[verifier::external_body]
pub(crate) fn now_timestamp() -> u64 {
    std::time::SystemTime::now()
        .duration_since(std::time::SystemTime::UNIX_EPOCH)
        .map(|d| d.as_secs())
        .unwrap_or(0)
}

} // verus!
