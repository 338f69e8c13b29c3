use hana::{
    BlockHash, ChainSpec, Header, HeaderSlice, HeaderSliceStatus, HeaderSlices, StageId,
    StageLogger, VerifySlicesStage,
};

fn test_spec() -> ChainSpec {
    ChainSpec {
        min_gas_limit: 5_000,
        max_gas_limit: 1_000_000,
        max_extra_data_len: 32,
        max_future_drift: 1_000_000,
    }
}

/// A slice of `len` correctly chained headers anchored at `start`.
fn good_slice(start: u64, len: u64) -> HeaderSlice {
    let mut headers = Vec::new();
    let mut parent = BlockHash::from_word(start.wrapping_mul(31) + 7);
    for k in 0..len {
        let hash = BlockHash::from_word((start + k).wrapping_mul(31) + 8 + k);
        headers.push(Header {
            number: start + k,
            hash,
            parent_hash: parent,
            timestamp: start + k + 1,
            gas_limit: 10_000,
            extra_data_len: 0,
        });
        parent = hash;
    }
    HeaderSlice {
        start_block_num: start,
        status: HeaderSliceStatus::Downloaded,
        headers: Some(headers),
        request_time: None,
        request_attempt: 0,
    }
}

/// Like `good_slice`, but with one parent hash deliberately broken.
fn broken_slice(start: u64, len: u64) -> HeaderSlice {
    let mut slice = good_slice(start, len);
    if let Some(headers) = slice.headers.as_mut() {
        headers[2].parent_hash = BlockHash::from_word(u64::MAX);
    }
    slice
}

#[test]
fn verify_stage_parallelism() {
    let slice_size: u64 = 8;
    let mut window = HeaderSlices::new(slice_size);
    for i in 0..32u64 {
        let start = i * slice_size;
        let slice = if i % 8 == 3 {
            broken_slice(start, slice_size)
        } else {
            good_slice(start, slice_size)
        };
        window.append_slice(slice);
    }
    assert_eq!(window.count_of(HeaderSliceStatus::Downloaded), 32);

    let mut stage = VerifySlicesStage::new(window, test_spec());
    stage.execute().unwrap();

    assert_eq!(stage.slices().count_of(HeaderSliceStatus::Downloaded), 0);
    assert_eq!(stage.slices().count_of(HeaderSliceStatus::VerifiedInternally), 28);
    assert_eq!(stage.slices().count_of(HeaderSliceStatus::Invalid), 4);
    assert_eq!(stage.verify_invocations, 32);
}

#[test]
fn execute_without_downloaded_slices_returns_at_once() {
    let mut window = HeaderSlices::new(4);
    let mut slice = good_slice(0, 4);
    slice.status = HeaderSliceStatus::Saved;
    window.append_slice(slice);
    let mut stage = VerifySlicesStage::new(window, test_spec());
    assert!(!stage.can_proceed_check());
    stage.execute().unwrap();
    assert_eq!(stage.verify_invocations, 0);
    assert_eq!(stage.slices().count_of(HeaderSliceStatus::Saved), 1);
}

#[test]
fn transition_moves_exactly_one_count() {
    let mut window = HeaderSlices::new(4);
    window.append_slice(good_slice(0, 4));
    window.append_slice(good_slice(4, 4));
    assert_eq!(window.count_of(HeaderSliceStatus::Downloaded), 2);
    assert_eq!(window.len(), 2);

    window.set_slice_status(0, HeaderSliceStatus::VerifiedInternally);
    assert_eq!(window.count_of(HeaderSliceStatus::Downloaded), 1);
    assert_eq!(window.count_of(HeaderSliceStatus::VerifiedInternally), 1);
    assert_eq!(window.count_of(HeaderSliceStatus::Invalid), 0);
    let total = window.count_of(HeaderSliceStatus::Empty)
        + window.count_of(HeaderSliceStatus::Requested)
        + window.count_of(HeaderSliceStatus::Downloaded)
        + window.count_of(HeaderSliceStatus::VerifiedInternally)
        + window.count_of(HeaderSliceStatus::Invalid)
        + window.count_of(HeaderSliceStatus::VerifiedLinked)
        + window.count_of(HeaderSliceStatus::Saved)
        + window.count_of(HeaderSliceStatus::Refetch);
    assert_eq!(total, window.len());
}

#[test]
fn find_batch_returns_first_matches_in_order() {
    let mut window = HeaderSlices::new(4);
    for i in 0..5u64 {
        let mut s = good_slice(i * 4, 4);
        if i == 1 || i == 3 {
            s.status = HeaderSliceStatus::VerifiedInternally;
        }
        window.append_slice(s);
    }
    let batch = window.find_batch_by_status(HeaderSliceStatus::Downloaded, 2);
    assert_eq!(batch, vec![0, 2]);
    let batch_all = window.find_batch_by_status(HeaderSliceStatus::Downloaded, 10);
    assert_eq!(batch_all, vec![0, 2, 4]);
}

#[test]
fn slice_verification_rules() {
    let spec = test_spec();
    // A correct slice verifies.
    let good = good_slice(16, 4);
    let headers = good.headers.as_ref().unwrap();
    assert!(hana::verify_slice_headers(headers, 16, 1_000, &spec));
    // The wrong anchor is rejected.
    assert!(!hana::verify_slice_headers(headers, 17, 1_000, &spec));
    // An empty range is rejected.
    let empty: Vec<Header> = Vec::new();
    assert!(!hana::verify_slice_headers(&empty, 16, 1_000, &spec));
    // A broken parent link is rejected.
    let bad = broken_slice(16, 4);
    assert!(!hana::verify_slice_headers(bad.headers.as_ref().unwrap(), 16, 1_000, &spec));
    // A gas limit outside the chain bounds is rejected.
    let mut gas = good_slice(16, 4);
    gas.headers.as_mut().unwrap()[1].gas_limit = 1;
    assert!(!hana::verify_slice_headers(gas.headers.as_ref().unwrap(), 16, 1_000, &spec));
    // A timestamp too far in the future is rejected.
    let mut future = good_slice(16, 4);
    future.headers.as_mut().unwrap()[3].timestamp = u64::MAX - 1;
    assert!(!hana::verify_slice_headers(future.headers.as_ref().unwrap(), 16, 1_000, &spec));
}

#[test]
fn logger_builds_exact_lines() {
    let logger = StageLogger::new(1, 14, StageId::Bodies);
    assert_eq!(logger.msg("commit done"), "[2/14 BODIES] commit done");
    assert_eq!(logger.info("x"), "INFO [2/14 BODIES] x");
    assert_eq!(logger.debug("x"), "DEBUG [2/14 BODIES] x");
    assert_eq!(logger.trace("x"), "TRACE [2/14 BODIES] x");
    assert_eq!(logger.warn("x"), "WARN [2/14 BODIES] x");
    assert_eq!(logger.error("x"), "ERROR [2/14 BODIES] x");

    let first = StageLogger::new(0, 1, StageId::Headers);
    assert_eq!(first.msg(""), "[1/1 HEADERS] ");
    let wide = StageLogger::new(9, 1_000_000, StageId::Finish);
    assert_eq!(wide.msg("m"), "[10/1000000 FINISH] m");
}

#[test]
fn stage_ids_have_stable_names() {
    assert_eq!(StageId::Headers.name(), "HEADERS");
    assert_eq!(StageId::Bodies.name(), "BODIES");
    assert_eq!(StageId::Finish.name(), "FINISH");
}

#[test]
fn slice_lifecycle_transitions() {
    let slice_size: u64 = 4;
    let mut window = HeaderSlices::new(slice_size);
    for i in 0..3u64 {
        let mut s = good_slice(i * slice_size, slice_size);
        s.status = HeaderSliceStatus::Empty;
        s.headers = None;
        window.append_slice(s);
    }
    assert_eq!(window.count_of(HeaderSliceStatus::Empty), 3);

    // request: the first position is asked from a peer.
    window.set_slice_status(0, HeaderSliceStatus::Requested);
    assert_eq!(window.count_of(HeaderSliceStatus::Requested), 1);

    // arrive: its headers land and it becomes downloaded.
    let arrived = good_slice(0, slice_size).headers.unwrap();
    window.set_slice_downloaded(0, arrived);
    assert_eq!(window.count_of(HeaderSliceStatus::Downloaded), 1);
    assert_eq!(window.count_of(HeaderSliceStatus::Requested), 0);

    // verify, link, persist.
    window.set_slice_status(0, HeaderSliceStatus::VerifiedInternally);
    window.set_slice_status(0, HeaderSliceStatus::VerifiedLinked);
    window.set_slice_status(0, HeaderSliceStatus::Saved);
    assert_eq!(window.count_of(HeaderSliceStatus::Saved), 1);

    // slide: the saved slice leaves and a fresh empty anchor appears.
    window.slide();
    assert_eq!(window.len(), 3);
    assert_eq!(window.count_of(HeaderSliceStatus::Saved), 0);
    assert_eq!(window.count_of(HeaderSliceStatus::Empty), 3);
    let batch = window.find_batch_by_status(HeaderSliceStatus::Empty, 10);
    assert_eq!(batch, vec![0, 1, 2]);

    // reset: a slice that failed verification is emptied for refetching.
    let bad = broken_slice(4, slice_size);
    window.set_slice_downloaded(0, bad.headers.unwrap());
    window.set_slice_status(0, HeaderSliceStatus::Invalid);
    window.reset_slice(0);
    assert_eq!(window.count_of(HeaderSliceStatus::Invalid), 0);
    assert_eq!(window.count_of(HeaderSliceStatus::Empty), 3);
}
