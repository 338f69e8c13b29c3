use hana::{
    BlockHash, BodyForStorage, ConvertBodies, ConvertHeaders, Db, ExecOutput, FinishStage,
    Header, PassOutcome, Pipeline, PipelineStage, PruningInput, Stage, StageError, StageId,
    StageInput, Tables, TransactionRecord, UnwindInput,
};

/// A deterministic chain of `n + 1` blocks (genesis included) with
/// `txs_per_block` transactions per non-genesis block. The `salt` changes
/// every hash from `diverge_from` on, so two sources built with different
/// salts agree below the divergence point and disagree from it.
fn build_source(n: u64, txs_per_block: u64, diverge_from: u64, salt: u64) -> Tables {
    let mut t = Tables::new();
    let mut parent = BlockHash::zero();
    let mut tx_id: u64 = 0;
    for b in 0..=n {
        let word = if b >= diverge_from { b + 1 + salt * 1_000_000 } else { b + 1 };
        let hash = BlockHash::from_word(word);
        let header = Header {
            number: b,
            hash,
            parent_hash: parent,
            timestamp: b + 1,
            gas_limit: 10_000,
            extra_data_len: 0,
        };
        t.canonical.append(b, hash);
        t.headers.append(b, header);
        t.total_difficulty.append(b, b + 100);
        let amount = if b == 0 { 0 } else { txs_per_block };
        t.bodies.append(b, BodyForStorage { base_tx_id: tx_id, tx_amount: amount, uncle_count: 0 });
        for k in 0..amount {
            t.transactions.append(tx_id, TransactionRecord { payload: b * 1_000 + k });
            tx_id += 1;
        }
        parent = hash;
    }
    t
}

/// A fresh store holding only the genesis rows of `src`.
fn seed_genesis(src: &Tables) -> Db {
    let mut db = Db::new();
    let mut tx = db.begin();
    let (k, h) = src.canonical.row(0);
    tx.tables.canonical.append(k, h);
    let (_, hd) = src.headers.row(0);
    tx.tables.headers.append(0, hd);
    let (_, td) = src.total_difficulty.row(0);
    tx.tables.total_difficulty.append(0, td);
    let (_, b0) = src.bodies.row(0);
    tx.tables.bodies.append(0, b0);
    tx.commit(&mut db);
    db
}

fn full_pipeline(src: &Tables, max_block: Option<u64>) -> Pipeline {
    let mut p = Pipeline::new();
    p.set_min_progress_to_commit_after_stage(1024);
    p.set_max_block(max_block);
    p.push(PipelineStage::Headers(ConvertHeaders::new(src.duplicate(), max_block, None)));
    p.push(PipelineStage::Bodies(ConvertBodies::new(src.duplicate(), 600)));
    p.push(PipelineStage::Finish(FinishStage::new()));
    p
}

fn run_until_done(p: &mut Pipeline, db: &mut Db) -> Vec<PassOutcome> {
    let mut outs = Vec::new();
    for _ in 0..64 {
        let o = p.run_pass(db).expect("pass failed");
        let stop = o.all_done && !o.advanced && o.unwound_to.is_none();
        outs.push(o);
        if stop {
            break;
        }
    }
    outs
}

#[test]
fn clean_import_small_range() {
    let src = build_source(10, 3, u64::MAX, 0);
    let mut db = seed_genesis(&src);
    let mut p = full_pipeline(&src, None);
    let o = p.run_pass(&mut db).expect("pass failed");
    assert!(o.all_done);
    assert!(o.advanced);
    assert_eq!(o.unwound_to, None);

    // Local canonical rows equal the source rows for blocks 0..=10.
    assert_eq!(db.tables.canonical.len(), 11);
    for b in 0..=10u64 {
        assert_eq!(db.tables.canonical.get(b), src.canonical.get(b));
        assert_eq!(db.tables.headers.get(b), src.headers.get(b));
        assert_eq!(db.tables.total_difficulty.get(b), src.total_difficulty.get(b));
    }
    // Local body strides are dense and contiguous.
    let mut expected_base: u64 = 0;
    for i in 0..db.tables.bodies.len() {
        let (_, body) = db.tables.bodies.row(i);
        assert_eq!(body.base_tx_id, expected_base);
        expected_base += body.tx_amount;
    }
    assert_eq!(db.tables.transactions.len() as u64, expected_base);
    // Re-keyed transactions carry the source payloads in order.
    for j in 0..db.tables.transactions.len() {
        let (id, tx) = db.tables.transactions.row(j);
        assert_eq!(id, j as u64);
        let (_, src_tx) = src.transactions.row(j);
        assert_eq!(tx.payload, src_tx.payload);
    }
    assert_eq!(db.tables.progress.get(StageId::Headers), Some(10));
    assert_eq!(db.tables.progress.get(StageId::Bodies), Some(10));
    assert_eq!(db.tables.progress.get(StageId::Finish), Some(10));
}

#[test]
fn rerun_on_synced_store_is_noop() {
    let src = build_source(10, 2, u64::MAX, 0);
    let mut db = seed_genesis(&src);
    let mut p = full_pipeline(&src, None);
    run_until_done(&mut p, &mut db);
    let canonical_before = db.tables.canonical.len();
    let txs_before = db.tables.transactions.len();
    let o = p.run_pass(&mut db).expect("pass failed");
    assert!(o.all_done);
    assert!(!o.advanced);
    assert_eq!(o.commits, 0);
    assert_eq!(db.tables.canonical.len(), canonical_before);
    assert_eq!(db.tables.transactions.len(), txs_before);
    assert_eq!(db.tables.progress.get(StageId::Headers), Some(10));
}

#[test]
fn divergence_triggers_unwind() {
    // Local store synced to block 5 on chain A.
    let src_a = build_source(5, 1, u64::MAX, 0);
    let mut db = seed_genesis(&src_a);
    let mut pa = full_pipeline(&src_a, None);
    run_until_done(&mut pa, &mut db);
    assert_eq!(db.tables.progress.get(StageId::Headers), Some(5));

    // The source now disagrees at block 5.
    let src_b = build_source(10, 1, 5, 7);
    let mut pb = full_pipeline(&src_b, None);
    let o = pb.run_pass(&mut db).expect("pass failed");
    assert_eq!(o.unwound_to, Some(4));
    assert_eq!(db.tables.progress.get(StageId::Headers), Some(4));
    assert_eq!(db.tables.progress.get(StageId::Bodies), Some(4));
    assert_eq!(db.tables.progress.get(StageId::Finish), Some(4));
    // No canonical row remains past the unwind target.
    let last = db.tables.canonical.last().expect("canonical empty");
    assert_eq!(last.0, 4);
    // The next passes converge onto chain B.
    run_until_done(&mut pb, &mut db);
    assert_eq!(db.tables.progress.get(StageId::Headers), Some(10));
    assert_eq!(db.tables.canonical.get(5), src_b.canonical.get(5));
}

#[test]
fn unwind_past_genesis_is_fatal() {
    let src_a = build_source(3, 0, u64::MAX, 0);
    let mut db = seed_genesis(&src_a);
    let mut pa = full_pipeline(&src_a, None);
    run_until_done(&mut pa, &mut db);

    // A source that disagrees already at genesis: the pipeline unwinds
    // block by block and runs out of room at genesis.
    let src_b = build_source(3, 0, 0, 9);
    let mut pb = full_pipeline(&src_b, None);
    let mut fatal = None;
    for _ in 0..8 {
        match pb.run_pass(&mut db) {
            Ok(o) => assert!(o.unwound_to.is_some()),
            Err(e) => {
                fatal = Some(e);
                break;
            },
        }
    }
    let err = fatal.expect("divergence at genesis must be fatal");
    assert_eq!(err, StageError::UnwindPastGenesis);
    assert!(err.message().contains("past genesis"));
}

#[test]
fn pruning_honors_depth() {
    let src = build_source(200_000, 0, u64::MAX, 0);
    let mut db = seed_genesis(&src);
    let mut p = Pipeline::new();
    p.set_min_progress_to_commit_after_stage(u64::MAX);
    p.push(PipelineStage::Headers(ConvertHeaders::new(src.duplicate(), None, None)));
    run_until_done(&mut p, &mut db);
    assert_eq!(db.tables.progress.get(StageId::Headers), Some(200_000));

    p.set_pruning_interval(90_000);
    p.run_pass(&mut db).expect("prune pass failed");
    // Every header row below 110_000 is gone; everything from there on stays.
    let first = db.tables.canonical.first().expect("canonical empty");
    assert_eq!(first.0, 110_000);
    assert_eq!(db.tables.canonical.len(), 90_001);
    assert_eq!(db.tables.canonical.get(109_999), None);
    assert!(db.tables.canonical.get(110_000).is_some());
    assert!(db.tables.canonical.get(200_000).is_some());
    assert_eq!(db.tables.headers.get(109_999), None);
    assert!(db.tables.headers.get(110_000).is_some());
}

#[test]
fn commit_batching() {
    let src = build_source(5_000, 0, u64::MAX, 0);
    let mut db = seed_genesis(&src);
    let mut p = Pipeline::new();
    p.set_min_progress_to_commit_after_stage(1024);
    p.push(PipelineStage::Headers(ConvertHeaders::new(src.duplicate(), None, Some(1024))));
    let mut commits: u64 = 0;
    let mut boundaries = Vec::new();
    for _ in 0..32 {
        let o = p.run_pass(&mut db).expect("pass failed");
        commits += o.commits;
        // After a crash the store would be exactly at the last commit.
        boundaries.push(db.tables.canonical.last().expect("canonical empty").0);
        if o.all_done && !o.advanced && o.unwound_to.is_none() {
            break;
        }
    }
    assert_eq!(commits, 5);
    assert_eq!(boundaries[0], 1024);
    assert_eq!(boundaries[1], 2048);
    assert_eq!(boundaries[2], 3072);
    assert_eq!(boundaries[3], 4096);
    assert_eq!(boundaries[4], 5_000);
    assert_eq!(db.tables.progress.get(StageId::Headers), Some(5_000));
}

#[test]
fn unwind_then_forward_is_bit_identical() {
    let src = build_source(12, 2, u64::MAX, 0);
    // Straight run.
    let mut db_straight = seed_genesis(&src);
    let mut p1 = full_pipeline(&src, None);
    run_until_done(&mut p1, &mut db_straight);
    // Run, unwind to 6, run forward again.
    let mut db_rewound = seed_genesis(&src);
    let mut p2 = full_pipeline(&src, None);
    run_until_done(&mut p2, &mut db_rewound);
    let headers_stage = ConvertHeaders::new(src.duplicate(), None, None);
    let bodies_stage = ConvertBodies::new(src.duplicate(), 600);
    let mut tx = db_rewound.begin();
    bodies_stage.unwind(&mut tx, UnwindInput { unwind_to: 6, stage_progress: 12 }).unwrap();
    headers_stage.unwind(&mut tx, UnwindInput { unwind_to: 6, stage_progress: 12 }).unwrap();
    tx.tables.progress.set(StageId::Headers, 6);
    tx.tables.progress.set(StageId::Bodies, 6);
    tx.tables.progress.set(StageId::Finish, 6);
    tx.commit(&mut db_rewound);
    run_until_done(&mut p2, &mut db_rewound);
    // Bit-identical contents in every owned table.
    assert_eq!(db_straight.tables.canonical.len(), db_rewound.tables.canonical.len());
    for i in 0..db_straight.tables.canonical.len() {
        assert_eq!(db_straight.tables.canonical.row(i), db_rewound.tables.canonical.row(i));
        assert_eq!(db_straight.tables.headers.row(i), db_rewound.tables.headers.row(i));
        assert_eq!(
            db_straight.tables.total_difficulty.row(i),
            db_rewound.tables.total_difficulty.row(i),
        );
        assert_eq!(db_straight.tables.bodies.row(i), db_rewound.tables.bodies.row(i));
    }
    assert_eq!(db_straight.tables.transactions.len(), db_rewound.tables.transactions.len());
    for j in 0..db_straight.tables.transactions.len() {
        assert_eq!(db_straight.tables.transactions.row(j), db_rewound.tables.transactions.row(j));
    }
}

#[test]
fn missing_body_at_progress_is_fatal() {
    let src = build_source(4, 1, u64::MAX, 0);
    // Seed only canonical genesis, without its body.
    let mut db = Db::new();
    let mut tx = db.begin();
    let (k, h) = src.canonical.row(0);
    tx.tables.canonical.append(k, h);
    tx.commit(&mut db);
    let mut p = Pipeline::new();
    p.push(PipelineStage::Bodies(ConvertBodies::new(src.duplicate(), 600)));
    let err = p.run_pass(&mut db).expect_err("missing genesis body must be fatal");
    assert_eq!(err, StageError::MissingBody { block: 0 });
}

#[test]
fn short_transaction_read_is_fatal() {
    // Block 1 claims three transactions but the source table holds one.
    let mut src = build_source(0, 0, u64::MAX, 0);
    src.canonical.append(1, BlockHash::from_word(2));
    src.headers.append(
        1,
        Header {
            number: 1,
            hash: BlockHash::from_word(2),
            parent_hash: BlockHash::from_word(1),
            timestamp: 2,
            gas_limit: 10_000,
            extra_data_len: 0,
        },
    );
    src.total_difficulty.append(1, 101);
    src.bodies.append(1, BodyForStorage { base_tx_id: 0, tx_amount: 3, uncle_count: 0 });
    src.transactions.append(0, TransactionRecord { payload: 1 });

    let mut db = seed_genesis(&src);
    let mut p = full_pipeline(&src, None);
    let err = p.run_pass(&mut db).expect_err("short read must be fatal");
    assert_eq!(err, StageError::ShortTransactionRead { block: 1 });
}

#[test]
fn missing_header_row_is_fatal() {
    let mut src = build_source(1, 0, u64::MAX, 0);
    // A canonical entry whose header row is absent.
    src.canonical.append(2, BlockHash::from_word(3));
    src.total_difficulty.append(2, 102);
    let mut db = seed_genesis(&src);
    let mut p = Pipeline::new();
    p.push(PipelineStage::Headers(ConvertHeaders::new(src.duplicate(), None, None)));
    let err = p.run_pass(&mut db).expect_err("missing header row must be fatal");
    assert_eq!(err, StageError::MissingHeader { block: 2 });
}

#[test]
fn corrupt_source_is_refused_by_stage_contract() {
    // Build an unsorted foreign canonical table and call through the
    // public stage contract, which validates before converting.
    let mut src = Tables::new();
    src.canonical.rows.push((5, BlockHash::from_word(6)));
    src.canonical.rows.push((3, BlockHash::from_word(4)));
    let stage = ConvertHeaders::new(src, None, None);
    let db = Db::new();
    let mut tx = db.begin();
    let input = StageInput { restarted: false, previous_stage: None, stage_progress: None };
    let r = Stage::execute(&stage, &mut tx, input);
    assert_eq!(r, Err(StageError::CorruptSource));
}

#[test]
fn finish_stage_adopts_previous_progress() {
    let stage = FinishStage::new();
    let db = Db::new();
    let mut tx = db.begin();
    let input = StageInput {
        restarted: false,
        previous_stage: Some((StageId::Bodies, 42)),
        stage_progress: Some(40),
    };
    let r = stage.execute(&mut tx, input).unwrap();
    assert_eq!(r, ExecOutput::Progress { stage_progress: 42, done: true });
}

#[test]
fn table_operations_are_exact() {
    let mut t: hana::Table<u64> = hana::Table::new();
    t.append(2, 20);
    t.append(5, 50);
    t.append(9, 90);
    assert_eq!(t.get(5), Some(50));
    assert_eq!(t.get(4), None);
    assert_eq!(t.first(), Some((2, 20)));
    assert_eq!(t.last(), Some((9, 90)));
    assert_eq!(t.index_from(5), 1);
    assert_eq!(t.index_from(6), 2);
    let mut u = t.duplicate();
    u.truncate_from(5);
    assert_eq!(u.len(), 1);
    assert_eq!(u.get(2), Some(20));
    let mut v = t.duplicate();
    v.drop_below(5);
    assert_eq!(v.len(), 2);
    assert_eq!(v.first(), Some((5, 50)));
    assert!(t.check_sorted());
}

#[test]
fn progress_records_are_per_stage() {
    let mut db = Db::new();
    let mut tx = db.begin();
    tx.tables.progress.set(StageId::Headers, 7);
    tx.tables.progress.set(StageId::Bodies, 3);
    tx.tables.progress.set(StageId::Headers, 9);
    assert_eq!(tx.tables.progress.get(StageId::Headers), Some(9));
    assert_eq!(tx.tables.progress.get(StageId::Bodies), Some(3));
    assert_eq!(tx.tables.progress.get(StageId::Finish), None);
    tx.commit(&mut db);
    assert_eq!(db.tables.progress.get(StageId::Headers), Some(9));
}

#[test]
fn stage_error_messages_name_the_fault() {
    assert!(StageError::UnwindPastGenesis.message().contains("past genesis"));
    assert!(StageError::MissingBody { block: 3 }.message().contains("body"));
    assert!(StageError::ShortTransactionRead { block: 3 }.message().contains("transaction"));
}

#[test]
fn missing_total_difficulty_row_is_fatal() {
    let mut src = build_source(1, 0, u64::MAX, 0);
    src.canonical.append(2, BlockHash::from_word(3));
    src.headers.append(
        2,
        Header {
            number: 2,
            hash: BlockHash::from_word(3),
            parent_hash: BlockHash::from_word(2),
            timestamp: 3,
            gas_limit: 10_000,
            extra_data_len: 0,
        },
    );
    let mut db = seed_genesis(&src);
    let mut p = Pipeline::new();
    p.push(PipelineStage::Headers(ConvertHeaders::new(src.duplicate(), None, None)));
    let err = p.run_pass(&mut db).expect_err("missing total difficulty must be fatal");
    assert_eq!(err, StageError::MissingTotalDifficulty { block: 2 });
}

#[test]
fn header_hash_mismatch_is_fatal() {
    let mut src = build_source(1, 0, u64::MAX, 0);
    src.canonical.append(2, BlockHash::from_word(3));
    src.headers.append(
        2,
        Header {
            number: 2,
            hash: BlockHash::from_word(99),
            parent_hash: BlockHash::from_word(2),
            timestamp: 3,
            gas_limit: 10_000,
            extra_data_len: 0,
        },
    );
    src.total_difficulty.append(2, 102);
    let mut db = seed_genesis(&src);
    let mut p = Pipeline::new();
    p.push(PipelineStage::Headers(ConvertHeaders::new(src.duplicate(), None, None)));
    let err = p.run_pass(&mut db).expect_err("stored hash mismatch must be fatal");
    assert_eq!(err, StageError::HeaderHashMismatch { block: 2 });
}

#[test]
fn transaction_id_overflow_is_fatal() {
    let src = build_source(2, 1, u64::MAX, 0);
    // A local store whose genesis body claims a stride ending past the id
    // space.
    let mut db = Db::new();
    let mut tx = db.begin();
    let (k, h) = src.canonical.row(0);
    tx.tables.canonical.append(k, h);
    tx.tables.bodies.append(
        0,
        BodyForStorage { base_tx_id: u64::MAX, tx_amount: 1, uncle_count: 0 },
    );
    tx.tables.transactions.append(u64::MAX, TransactionRecord { payload: 0 });
    tx.commit(&mut db);
    let stage = ConvertBodies::new(src.duplicate(), 600);
    let mut tx2 = db.begin();
    let input = StageInput { restarted: false, previous_stage: None, stage_progress: None };
    let r = stage.execute(&mut tx2, input);
    assert_eq!(r, Err(StageError::TxIdOverflow));
}

#[test]
fn uncovered_transactions_are_refused_by_stage_contract() {
    let src = build_source(2, 1, u64::MAX, 0);
    // A local store whose transaction table does not match its body
    // strides: the public stage contract validates before converting.
    let mut db = Db::new();
    let mut tx = db.begin();
    let (k, h) = src.canonical.row(0);
    tx.tables.canonical.append(k, h);
    tx.tables.bodies.append(0, BodyForStorage { base_tx_id: 0, tx_amount: 0, uncle_count: 0 });
    tx.tables.transactions.append(0, TransactionRecord { payload: 5 });
    tx.commit(&mut db);
    let stage = ConvertBodies::new(src.duplicate(), 600);
    let mut tx2 = db.begin();
    let input = StageInput { restarted: false, previous_stage: None, stage_progress: None };
    let r = Stage::execute(&stage, &mut tx2, input);
    assert_eq!(r, Err(StageError::CorruptStore));
}

#[test]
fn lagging_previous_stage_is_refused_by_finish() {
    let stage = FinishStage::new();
    let db = Db::new();
    let mut tx = db.begin();
    let input = StageInput {
        restarted: false,
        previous_stage: Some((StageId::Bodies, 3)),
        stage_progress: Some(8),
    };
    let r = Stage::execute(&stage, &mut tx, input);
    assert_eq!(r, Err(StageError::NonMonotonicProgress { stage: StageId::Finish }));
}

#[test]
fn pruning_a_corrupt_body_table_is_fatal() {
    let src = build_source(2, 1, u64::MAX, 0);
    // A store whose genesis body claims two transactions the table lacks.
    let mut db = Db::new();
    let mut tx = db.begin();
    let (k, h) = src.canonical.row(0);
    tx.tables.canonical.append(k, h);
    tx.tables.bodies.append(0, BodyForStorage { base_tx_id: 0, tx_amount: 2, uncle_count: 0 });
    tx.commit(&mut db);
    let stage = ConvertBodies::new(src, 600);
    let mut tx2 = db.begin();
    let r = stage.prune(&mut tx2, PruningInput { prune_to: 5 });
    assert_eq!(r, Err(StageError::CorruptStore));
    // The store is left untouched rather than silently pruned.
    assert_eq!(tx2.tables.bodies.len(), 1);
    assert!(StageError::CorruptStore.message().contains("cover"));
}
