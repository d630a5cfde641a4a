use opcode_stats::artifacts::ArtifactStore;
use opcode_stats::consts::SHANGHAI_FORK;
use opcode_stats::store::{TaskState, TaskStore};
use opcode_stats::worker::{handle_block, handle_tx, listen_blocks, TxRecord};

fn hash(seed: u8) -> [u8; 32] {
    let mut h = [0u8; 32];
    h[0] = seed;
    h
}

fn addr(seed: u8) -> [u8; 20] {
    let mut a = [0u8; 20];
    a[0] = seed;
    a
}

#[test]
fn artifact_tree_is_last_writer_wins() {
    let mut artifacts = ArtifactStore::new();
    assert!(artifacts.init_code.get(&vec![1, 2]).is_none());
    artifacts.init_code.insert(vec![1, 2], vec![0xaa]);
    assert_eq!(artifacts.init_code.get(&vec![1, 2]), Some(&vec![0xaa]));
    artifacts.init_code.insert(vec![1, 2], vec![0xbb, 0xcc]);
    assert_eq!(artifacts.init_code.get(&vec![1, 2]), Some(&vec![0xbb, 0xcc]));
    assert!(artifacts.init_code.get(&vec![1]).is_none());
}

#[test]
fn listener_catches_up_to_the_head() {
    let mut store = TaskStore::new();
    listen_blocks(&mut store, SHANGHAI_FORK + 2);
    assert_eq!(store.blocks.len(), 3);
    for (i, n) in (SHANGHAI_FORK..=SHANGHAI_FORK + 2).enumerate() {
        assert_eq!(store.blocks[i].block_number, n);
        assert_eq!(store.blocks[i].fetch_state, TaskState::Pending);
    }
    assert_eq!(store.get_latest_recorded_block(), SHANGHAI_FORK + 2);
}

#[test]
fn listener_is_a_no_op_behind_the_watermark() {
    let mut store = TaskStore::new();
    listen_blocks(&mut store, SHANGHAI_FORK - 1);
    assert_eq!(store.blocks.len(), 0);
    listen_blocks(&mut store, SHANGHAI_FORK);
    assert_eq!(store.blocks.len(), 1);
    listen_blocks(&mut store, SHANGHAI_FORK);
    assert_eq!(store.blocks.len(), 1);
}

#[test]
fn listener_watermark_advances_monotonically() {
    let mut store = TaskStore::new();
    listen_blocks(&mut store, SHANGHAI_FORK + 5);
    let w1 = store.get_latest_recorded_block();
    listen_blocks(&mut store, SHANGHAI_FORK + 2);
    let w2 = store.get_latest_recorded_block();
    assert!(w2 >= w1);
    assert_eq!(w2, SHANGHAI_FORK + 5);
}

#[test]
fn block_worker_enqueues_creations_and_finishes() {
    let mut store = TaskStore::new();
    let mut artifacts = ArtifactStore::new();
    store.submit_block_task(50);
    assert_eq!(store.claim_block(), Some(50));
    let txs = vec![
        TxRecord { to: Some(addr(1)), tx_index: 0, tx_hash: hash(1), input: vec![0x01] },
        TxRecord { to: None, tx_index: 1, tx_hash: hash(2), input: vec![0x60, 0x2a] },
        TxRecord { to: Some(addr(2)), tx_index: 2, tx_hash: hash(3), input: vec![] },
    ];
    handle_block(&mut store, &mut artifacts, 50, &txs);
    // Only the creation became a task, as PENDING, with its payload.
    assert_eq!(store.txs.len(), 1);
    assert_eq!(store.txs[0].block_number, 50);
    assert_eq!(store.txs[0].tx_index, 1);
    assert_eq!(store.txs[0].tx_hash, hash(2));
    assert_eq!(store.txs[0].analyze_state, TaskState::Pending);
    // Its init code was stored; the others were not.
    assert_eq!(artifacts.init_code.get(&hash(2).to_vec()), Some(&vec![0x60, 0x2a]));
    assert!(artifacts.init_code.get(&hash(1).to_vec()).is_none());
    // The block is DONE.
    assert_eq!(store.blocks[0].fetch_state, TaskState::Done);
}

#[test]
fn failed_creation_goes_done_without_writes() {
    // A receipt with status 0: the task transitions to DONE; no artifact
    // writes, no statistics.
    let mut store = TaskStore::new();
    let mut artifacts = ArtifactStore::new();
    store.submit_tx_task(50, 0, hash(2));
    let task = store.claim_tx().expect("pending");
    let had_invalid = handle_tx(&mut store, &mut artifacts, &task, 0, &addr(7), &vec![0x60, 0x2a]);
    assert!(!had_invalid);
    assert_eq!(store.txs[0].analyze_state, TaskState::Done);
    assert_eq!(store.stats.len(), 0);
    assert!(artifacts.tx_contract.get(&hash(2).to_vec()).is_none());
    assert!(artifacts.contract.get(&addr(7).to_vec()).is_none());
}

#[test]
fn empty_deployed_code_goes_done_without_writes() {
    let mut store = TaskStore::new();
    let mut artifacts = ArtifactStore::new();
    store.submit_tx_task(50, 0, hash(2));
    let task = store.claim_tx().expect("pending");
    let had_invalid = handle_tx(&mut store, &mut artifacts, &task, 1, &addr(7), &vec![]);
    assert!(!had_invalid);
    assert_eq!(store.txs[0].analyze_state, TaskState::Done);
    assert_eq!(store.stats.len(), 0);
    assert!(artifacts.contract.get(&addr(7).to_vec()).is_none());
}

#[test]
fn tx_worker_records_artifacts_and_statistics() {
    let mut store = TaskStore::new();
    let mut artifacts = ArtifactStore::new();
    store.submit_tx_task(50, 1, hash(2));
    let task = store.claim_tx().expect("pending");
    let code = vec![0x60, 0x11, 0x60, 0x22, 0x01];
    let had_invalid = handle_tx(&mut store, &mut artifacts, &task, 1, &addr(7), &code);
    assert!(!had_invalid);
    assert_eq!(store.txs[0].analyze_state, TaskState::Done);
    assert_eq!(artifacts.tx_contract.get(&hash(2).to_vec()), Some(&addr(7).to_vec()));
    assert_eq!(artifacts.contract.get(&addr(7).to_vec()), Some(&code));
    assert_eq!(store.stat_count(50, 0x60), 2);
    assert_eq!(store.stat_count(50, 0x01), 1);
    assert_eq!(store.stat_count(50, 0x11), 0);
    assert_eq!(store.stat_count(50, 0x22), 0);
    assert_eq!(store.stat_count(49, 0x60), 0);
}

#[test]
fn tx_worker_flags_unassigned_opcodes() {
    let mut store = TaskStore::new();
    let mut artifacts = ArtifactStore::new();
    store.submit_tx_task(50, 0, hash(2));
    let task = store.claim_tx().expect("pending");
    let had_invalid = handle_tx(&mut store, &mut artifacts, &task, 1, &addr(7), &vec![0x0c]);
    assert!(had_invalid);
    // Counting happens by byte value regardless of the warning.
    assert_eq!(store.stat_count(50, 0x0c), 1);
}

#[test]
fn tx_worker_does_not_count_trimmed_metadata() {
    let mut store = TaskStore::new();
    let mut artifacts = ArtifactStore::new();
    store.submit_tx_task(50, 0, hash(2));
    let task = store.claim_tx().expect("pending");
    // STOP, ADD, then a valid CBOR tail that must not be counted.
    let code = vec![
        0x00, 0x01, 0x65, b'h', b'e', b'l', b'l', b'o', 0x00, 0x00, 0x07,
    ];
    handle_tx(&mut store, &mut artifacts, &task, 1, &addr(7), &code);
    assert_eq!(store.stat_count(50, 0x00), 1);
    assert_eq!(store.stat_count(50, 0x01), 1);
    assert_eq!(store.stat_count(50, 0x65), 0);
}

#[test]
fn reprocessing_a_tx_after_recovery_double_counts() {
    // The accepted at-least-once consequence: a crash between the stat
    // commit and the DONE transition re-runs the whole per-tx increment.
    let mut store = TaskStore::new();
    let mut artifacts = ArtifactStore::new();
    store.submit_tx_task(50, 0, hash(2));
    let code = vec![0x60, 0x11, 0x01];
    let task = store.claim_tx().expect("pending");
    handle_tx(&mut store, &mut artifacts, &task, 1, &addr(7), &code);
    // Simulate the DONE transition being lost in a crash: the row returns
    // to PENDING and the task is claimed and processed again.
    store.txs[0].analyze_state = TaskState::InFlight;
    store.reset_in_flight_txs();
    let task = store.claim_tx().expect("claimable again");
    handle_tx(&mut store, &mut artifacts, &task, 1, &addr(7), &code);
    assert_eq!(store.stat_count(50, 0x60), 2);
    assert_eq!(store.stat_count(50, 0x01), 2);
    // The artifact writes were idempotent overwrites.
    assert_eq!(artifacts.contract.get(&addr(7).to_vec()), Some(&code));
}

#[test]
fn full_pipeline_over_one_block() {
    let mut store = TaskStore::new();
    let mut artifacts = ArtifactStore::new();
    listen_blocks(&mut store, SHANGHAI_FORK);
    let n = store.claim_block().expect("one pending block");
    assert_eq!(n, SHANGHAI_FORK);
    let txs = vec![
        TxRecord { to: None, tx_index: 0, tx_hash: hash(1), input: vec![0xfe] },
        TxRecord { to: None, tx_index: 1, tx_hash: hash(2), input: vec![0xfe] },
    ];
    handle_block(&mut store, &mut artifacts, n, &txs);
    // First creation failed, second deployed PUSH1 42 STOP.
    let t1 = store.claim_tx().expect("first task");
    handle_tx(&mut store, &mut artifacts, &t1, 0, &addr(0), &vec![]);
    let t2 = store.claim_tx().expect("second task");
    handle_tx(&mut store, &mut artifacts, &t2, 1, &addr(9), &vec![0x60, 0x2a, 0x00]);
    assert!(store.claim_tx().is_none());
    assert!(store.claim_block().is_none());
    assert_eq!(store.stat_count(SHANGHAI_FORK, 0x60), 1);
    assert_eq!(store.stat_count(SHANGHAI_FORK, 0x00), 1);
    assert_eq!(store.stat_count(SHANGHAI_FORK, 0x2a), 0);
    assert!(store.txs.iter().all(|t| t.analyze_state == TaskState::Done));
    assert!(store.blocks.iter().all(|t| t.fetch_state == TaskState::Done));
}
