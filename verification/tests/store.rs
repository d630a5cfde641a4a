use opcode_stats::consts::SHANGHAI_FORK;
use opcode_stats::store::{TaskState, TaskStore};

fn hash(seed: u8) -> [u8; 32] {
    let mut h = [0u8; 32];
    h[0] = seed;
    h
}

#[test]
fn submit_block_twice_yields_one_row() {
    let mut store = TaskStore::new();
    store.submit_block_task(7);
    store.submit_block_task(7);
    assert_eq!(store.blocks.len(), 1);
    assert_eq!(store.blocks[0].block_number, 7);
    assert_eq!(store.blocks[0].fetch_state, TaskState::Pending);
}

#[test]
fn submit_tx_twice_yields_one_row() {
    let mut store = TaskStore::new();
    store.submit_tx_task(7, 0, hash(1));
    store.submit_tx_task(7, 0, hash(1));
    assert_eq!(store.txs.len(), 1);
    assert_eq!(store.txs[0].analyze_state, TaskState::Pending);
}

#[test]
fn claim_block_takes_smallest_pending() {
    let mut store = TaskStore::new();
    store.submit_block_task(9);
    store.submit_block_task(3);
    store.submit_block_task(5);
    assert_eq!(store.claim_block(), Some(3));
    assert_eq!(store.claim_block(), Some(5));
    assert_eq!(store.claim_block(), Some(9));
    assert_eq!(store.claim_block(), None);
}

#[test]
fn claim_block_on_empty_queue_is_none() {
    let mut store = TaskStore::new();
    assert_eq!(store.claim_block(), None);
}

#[test]
fn claimed_block_is_not_claimable_again() {
    let mut store = TaskStore::new();
    store.submit_block_task(1);
    assert_eq!(store.claim_block(), Some(1));
    assert_eq!(store.claim_block(), None);
}

#[test]
fn two_workers_complete_ten_blocks_exactly_once() {
    // Two claimers interleaved over ten PENDING blocks: every claim is
    // exclusive, every block completes, the final state is all DONE.
    let mut store = TaskStore::new();
    for n in 100..110u64 {
        store.submit_block_task(n);
    }
    let mut seen: Vec<u64> = Vec::new();
    loop {
        // worker A claims, then worker B claims; both finish afterwards.
        let a = store.claim_block();
        let b = store.claim_block();
        for n in [a, b].into_iter().flatten() {
            assert!(!seen.contains(&n), "block claimed twice");
            seen.push(n);
            store.finish_block(n);
        }
        if a.is_none() && b.is_none() {
            break;
        }
    }
    assert_eq!(seen.len(), 10);
    assert_eq!(store.blocks.len(), 10);
    assert!(store.blocks.iter().all(|t| t.fetch_state == TaskState::Done));
}

#[test]
fn recovery_makes_claimed_block_claimable_again() {
    let mut store = TaskStore::new();
    store.submit_block_task(42);
    assert_eq!(store.claim_block(), Some(42));
    // The worker is dropped without finishing; the startup sweep follows.
    store.reset_in_flight_blocks();
    assert_eq!(store.claim_block(), Some(42));
}

#[test]
fn recovery_keeps_tx_payload_intact() {
    let mut store = TaskStore::new();
    store.submit_tx_task(11, 3, hash(9));
    let claimed = store.claim_tx().expect("one pending task");
    assert_eq!(claimed.block_number, 11);
    assert_eq!(claimed.tx_index, 3);
    assert_eq!(claimed.tx_hash, hash(9));
    store.reset_in_flight_txs();
    let again = store.claim_tx().expect("claimable again");
    assert_eq!(again.block_number, 11);
    assert_eq!(again.tx_index, 3);
    assert_eq!(again.tx_hash, hash(9));
}

#[test]
fn recovery_does_not_touch_done_rows() {
    let mut store = TaskStore::new();
    store.submit_block_task(1);
    store.submit_block_task(2);
    assert_eq!(store.claim_block(), Some(1));
    store.finish_block(1);
    assert_eq!(store.claim_block(), Some(2));
    store.reset_in_flight_blocks();
    assert_eq!(store.blocks[0].fetch_state, TaskState::Done);
    assert_eq!(store.blocks[1].fetch_state, TaskState::Pending);
}

#[test]
fn claim_tx_takes_first_pending_in_queue_order() {
    let mut store = TaskStore::new();
    store.submit_tx_task(5, 0, hash(1));
    store.submit_tx_task(5, 1, hash(2));
    let first = store.claim_tx().expect("pending");
    assert_eq!(first.tx_index, 0);
    let second = store.claim_tx().expect("pending");
    assert_eq!(second.tx_index, 1);
    assert!(store.claim_tx().is_none());
}

#[test]
fn finish_tx_marks_exactly_that_row_done() {
    let mut store = TaskStore::new();
    store.submit_tx_task(5, 0, hash(1));
    store.submit_tx_task(5, 1, hash(2));
    let t = store.claim_tx().expect("pending");
    store.finish_tx(&t.tx_hash);
    assert_eq!(store.txs[0].analyze_state, TaskState::Done);
    assert_eq!(store.txs[1].analyze_state, TaskState::Pending);
}

#[test]
fn stat_bump_is_an_absolute_increment() {
    let mut store = TaskStore::new();
    store.append_opcode_statistics(7, 0x60, 2);
    assert_eq!(store.stat_count(7, 0x60), 2);
    store.append_opcode_statistics(7, 0x60, 3);
    assert_eq!(store.stat_count(7, 0x60), 5);
    assert_eq!(store.stats.len(), 1);
}

#[test]
fn stat_bumps_commute_across_order() {
    let mut one = TaskStore::new();
    one.append_opcode_statistics(7, 0x60, 2);
    one.append_opcode_statistics(8, 0x01, 5);
    one.append_opcode_statistics(7, 0x60, 1);
    let mut other = TaskStore::new();
    other.append_opcode_statistics(7, 0x60, 1);
    other.append_opcode_statistics(7, 0x60, 2);
    other.append_opcode_statistics(8, 0x01, 5);
    for n in [7u64, 8u64] {
        for op in 0..=255u8 {
            assert_eq!(one.stat_count(n, op), other.stat_count(n, op));
        }
    }
}

#[test]
fn stat_totals_never_decrease() {
    let mut store = TaskStore::new();
    let mut last = store.stat_count(7, 0x60);
    for delta in [0u64, 1, 4, 0, 9] {
        store.append_opcode_statistics(7, 0x60, delta);
        let now = store.stat_count(7, 0x60);
        assert!(now >= last);
        last = now;
    }
}

#[test]
fn reprocessing_a_tx_double_counts() {
    // At-least-once delivery: applying the same per-transaction increment
    // twice counts the transaction twice.
    let mut store = TaskStore::new();
    store.append_opcode_statistics(7, 0x60, 5);
    store.append_opcode_statistics(7, 0x60, 5);
    assert_eq!(store.stat_count(7, 0x60), 10);
}

#[test]
fn stat_count_of_absent_key_is_zero() {
    let store = TaskStore::new();
    assert_eq!(store.stat_count(1, 0x00), 0);
}

#[test]
fn largest_block_number_works() {
    let mut store = TaskStore::new();
    store.submit_block_task(u64::MAX);
    assert_eq!(store.claim_block(), Some(u64::MAX));
    store.finish_block(u64::MAX);
    assert_eq!(store.blocks[0].fetch_state, TaskState::Done);
    assert_eq!(store.get_latest_recorded_block(), u64::MAX);
}

#[test]
fn latest_recorded_defaults_to_just_below_fork() {
    let store = TaskStore::new();
    assert_eq!(store.get_latest_recorded_block(), SHANGHAI_FORK - 1);
}

#[test]
fn latest_recorded_is_the_largest_row() {
    let mut store = TaskStore::new();
    store.submit_block_task(5);
    store.submit_block_task(12);
    store.submit_block_task(9);
    assert_eq!(store.get_latest_recorded_block(), 12);
}
