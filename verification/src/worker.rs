//! The decisions of the three worker kinds — head listener, block worker,
//! transaction worker — as functions from fetched values to store
//! transitions. Fetching itself (JSON-RPC over HTTP or WebSocket) is I/O
//! and happens outside; these functions take what was fetched and perform
//! every rule on the queues, the artifacts and the statistics.

use vstd::prelude::*;

use crate::artifacts::ArtifactStore;
use crate::bytecode::{spec_decode, Bytecode};
use crate::metadata::spec_trim;
use crate::opcode::spec_is_assigned;
use crate::stats::{count_opcodes, has_other_invalid, spec_count_byte};
use crate::store::{
    spec_max_block,
    lemma_max_block_bounds, spec_has_block, spec_has_tx, spec_latest_recorded, spec_stat_count,
    BlockTask, TaskState, TaskStore, TxTask,
};

verus! {

/// A transaction as fetched with its block: the fields the block worker
/// reads. A missing `to` address marks a contract creation.
pub struct TxRecord {
    /// The recipient, or `None` for a contract creation.
    pub to: Option<[u8; 20]>,
    /// Position of the transaction within its block.
    pub tx_index: u64,
    /// The transaction hash.
    pub tx_hash: [u8; 32],
    /// The raw input bytes (the init code, for a creation).
    pub input: Vec<u8>,
}

/// The listener's catch-up: enqueue a PENDING block task for every height
/// above the recorded watermark, up to and including the chain head. After
/// it, the watermark stands at the head (or where it was, if already
/// past); it never moves backwards.
pub fn listen_blocks(store: &mut TaskStore, latest_block: u64)
    requires
        old(store).wf(),
    ensures
        final(store).wf(),
        final(store).txs@ == old(store).txs@,
        final(store).stats@ == old(store).stats@,
        forall|i: int|
            0 <= i < old(store).blocks@.len() ==> final(store).blocks@[i] == old(store).blocks@[i],
        forall|i: int|
            old(store).blocks@.len() <= i < final(store).blocks@.len()
                ==> (#[trigger] final(store).blocks@[i]).fetch_state == TaskState::Pending
                && spec_latest_recorded(
                old(store).blocks@,
            ) < final(store).blocks@[i].block_number && final(store).blocks@[i].block_number
                <= latest_block,
        forall|n: u64|
            spec_latest_recorded(old(store).blocks@) < n && n <= latest_block ==> spec_has_block(
                final(store).blocks@,
                n,
            ),
        spec_latest_recorded(final(store).blocks@) == (if latest_block > spec_latest_recorded(
            old(store).blocks@,
        ) {
            latest_block
        } else {
            spec_latest_recorded(old(store).blocks@)
        }),
{
    let recorded = store.get_latest_recorded_block();
    if recorded >= latest_block {
        return ;
    }
    let mut k: u64 = 0;
    while k < latest_block - recorded
        invariant
            recorded == spec_latest_recorded(old(store).blocks@),
            recorded < latest_block,
            k <= latest_block - recorded,
            store.wf(),
            store.txs@ == old(store).txs@,
            store.stats@ == old(store).stats@,
            forall|i: int|
                0 <= i < old(store).blocks@.len() ==> store.blocks@[i] == old(store).blocks@[i],
            old(store).blocks@.len() <= store.blocks@.len(),
            forall|i: int|
                old(store).blocks@.len() <= i < store.blocks@.len() ==> (#[trigger] store.blocks@[i]).fetch_state
                    == TaskState::Pending && recorded < store.blocks@[i].block_number
                    && store.blocks@[i].block_number <= recorded + k,
            forall|n: u64|
                recorded < n && n <= recorded + k ==> spec_has_block(store.blocks@, n),
        decreases latest_block - recorded - k,
    {
        let ghost pre = store.blocks@;
        let n = recorded + 1 + k;
        store.submit_block_task(n);
        proof {
            assert forall|m: u64| recorded < m && m <= recorded + k + 1 implies spec_has_block(
                store.blocks@,
                m,
            ) by {
                if m <= recorded + k {
                    assert(spec_has_block(pre, m));
                    let w = choose|w: int|
                        0 <= w < pre.len() && (#[trigger] pre[w]).block_number == m;
                    assert(store.blocks@[w] == pre[w]);
                    assert((#[trigger] store.blocks@[w]).block_number == m);
                } else {
                    assert(m == n);
                    assert(spec_has_block(store.blocks@, n));
                }
            }
        }
        k = k + 1;
    }
    proof {
        assert(spec_has_block(store.blocks@, latest_block));
        let w = choose|w: int|
            0 <= w < store.blocks@.len() && (#[trigger] store.blocks@[w]).block_number
                == latest_block;
        lemma_max_block_bounds(store.blocks@);
        if old(store).blocks@.len() > 0 {
            lemma_max_block_bounds(old(store).blocks@);
        }
        let a = choose|a: int|
            0 <= a < store.blocks@.len() && (#[trigger] store.blocks@[a]).block_number
                == spec_max_block(store.blocks@);
        if a < old(store).blocks@.len() {
            assert(old(store).blocks@[a].block_number <= recorded);
        }
    }
}

/// A fixed-size byte array as a key for the artifact store.
fn bytes_of<const N: usize>(h: &[u8; N]) -> (r: Vec<u8>)
    ensures
        r@ == h@,
{
    let mut r: Vec<u8> = Vec::new();
    let mut i: usize = 0;
    while i < N
        invariant
            i <= N,
            r@ == h@.subrange(0, i as int),
        decreases N - i,
    {
        r.push(h[i]);
        proof {
            assert(h@.subrange(0, i + 1) =~= h@.subrange(0, i as int).push(h@[i as int]));
        }
        i = i + 1;
    }
    proof {
        assert(h@.subrange(0, N as int) =~= h@);
    }
    r
}

/// A copy of a byte vector.
fn copy_bytes(b: &Vec<u8>) -> (r: Vec<u8>)
    ensures
        r@ == b@,
{
    let mut r: Vec<u8> = Vec::new();
    let mut i: usize = 0;
    while i < b.len()
        invariant
            i <= b@.len(),
            r@ == b@.subrange(0, i as int),
        decreases b@.len() - i,
    {
        r.push(b[i]);
        proof {
            assert(b@.subrange(0, i + 1) =~= b@.subrange(0, i as int).push(b@[i as int]));
        }
        i = i + 1;
    }
    proof {
        assert(b@.subrange(0, b@.len() as int) =~= b@);
    }
    r
}

/// The init-code writes a block's creation transactions make, in order.
pub open spec fn spec_init_code_writes(m: Map<Seq<u8>, Seq<u8>>, txs: Seq<TxRecord>) -> Map<
    Seq<u8>,
    Seq<u8>,
>
    decreases txs.len(),
{
    if txs.len() == 0 {
        m
    } else {
        let prev = spec_init_code_writes(m, txs.drop_last());
        if txs.last().to is None {
            prev.insert(txs.last().tx_hash@, txs.last().input@)
        } else {
            prev
        }
    }
}

/// The block worker's decision on one claimed, fetched block: store each
/// creation transaction's init code, enqueue a transaction task per
/// creation — children before the parent finish — and mark the block DONE.
pub fn handle_block(
    store: &mut TaskStore,
    artifacts: &mut ArtifactStore,
    block_number: u64,
    txs: &Vec<TxRecord>,
)
    requires
        old(store).wf(),
        exists|i: int|
            0 <= i < old(store).blocks@.len() && old(store).blocks@[i] == (BlockTask {
                block_number,
                fetch_state: TaskState::InFlight,
            }),
    ensures
        final(store).wf(),
        final(store).stats@ == old(store).stats@,
        exists|i: int|
            0 <= i < old(store).blocks@.len() && old(store).blocks@[i] == (BlockTask {
                block_number,
                fetch_state: TaskState::InFlight,
            }) && final(store).blocks@ == old(store).blocks@.update(
                i,
                BlockTask { block_number, fetch_state: TaskState::Done },
            ),
        forall|j: int|
            0 <= j < txs@.len() && (#[trigger] txs@[j]).to is None ==> spec_has_tx(
                final(store).txs@,
                txs@[j].tx_hash@,
            ),
        forall|i: int|
            0 <= i < old(store).txs@.len() ==> final(store).txs@[i] == old(store).txs@[i],
        old(store).txs@.len() <= final(store).txs@.len(),
        forall|i: int|
            old(store).txs@.len() <= i < final(store).txs@.len() ==> exists|j: int|
                0 <= j < txs@.len() && (#[trigger] txs@[j]).to is None
                    && #[trigger] final(store).txs@[i] == (TxTask {
                    block_number,
                    tx_index: txs@[j].tx_index,
                    tx_hash: txs@[j].tx_hash,
                    analyze_state: TaskState::Pending,
                }),
        final(artifacts).init_code@ == spec_init_code_writes(old(artifacts).init_code@, txs@),
        final(artifacts).tx_contract@ == old(artifacts).tx_contract@,
        final(artifacts).contract@ == old(artifacts).contract@,
{
    let mut j: usize = 0;
    proof {
        assert(txs@.take(0) =~= Seq::<TxRecord>::empty());
    }
    while j < txs.len()
        invariant
            j <= txs@.len(),
            store.wf(),
            store.stats@ == old(store).stats@,
            store.blocks@ == old(store).blocks@,
            exists|i: int|
                0 <= i < old(store).blocks@.len() && old(store).blocks@[i] == (BlockTask {
                    block_number,
                    fetch_state: TaskState::InFlight,
                }),
            forall|i: int|
                0 <= i < old(store).txs@.len() ==> store.txs@[i] == old(store).txs@[i],
            old(store).txs@.len() <= store.txs@.len(),
            forall|i: int|
                old(store).txs@.len() <= i < store.txs@.len() ==> exists|jj: int|
                    0 <= jj < txs@.len() && (#[trigger] txs@[jj]).to is None
                        && #[trigger] store.txs@[i] == (TxTask {
                        block_number,
                        tx_index: txs@[jj].tx_index,
                        tx_hash: txs@[jj].tx_hash,
                        analyze_state: TaskState::Pending,
                    }),
            forall|jj: int|
                0 <= jj < j && (#[trigger] txs@[jj]).to is None ==> spec_has_tx(
                    store.txs@,
                    txs@[jj].tx_hash@,
                ),
            artifacts.init_code@ == spec_init_code_writes(
                old(artifacts).init_code@,
                txs@.take(j as int),
            ),
            artifacts.tx_contract@ == old(artifacts).tx_contract@,
            artifacts.contract@ == old(artifacts).contract@,
        decreases txs@.len() - j,
    {
        let ghost txs_pre = store.txs@;
        let t = &txs[j];
        if t.to.is_none() {
            let key = bytes_of(&t.tx_hash);
            let val = copy_bytes(&t.input);
            artifacts.init_code.insert(key, val);
            store.submit_tx_task(block_number, t.tx_index, t.tx_hash);
            proof {
                assert forall|jj: int|
                    0 <= jj < j + 1 && (#[trigger] txs@[jj]).to is None implies spec_has_tx(
                    store.txs@,
                    txs@[jj].tx_hash@,
                ) by {
                    if jj < j {
                        assert(spec_has_tx(txs_pre, txs@[jj].tx_hash@));
                        let w = choose|w: int|
                            0 <= w < txs_pre.len() && (#[trigger] txs_pre[w]).tx_hash@
                                == txs@[jj].tx_hash@;
                        assert(store.txs@[w] == txs_pre[w]);
                        assert((#[trigger] store.txs@[w]).tx_hash@ == txs@[jj].tx_hash@);
                    }
                }
                if store.txs@.len() > txs_pre.len() {
                    assert((#[trigger] txs@[j as int]).to is None && store.txs@[txs_pre.len()
                        as int] == (TxTask {
                        block_number,
                        tx_index: txs@[j as int].tx_index,
                        tx_hash: txs@[j as int].tx_hash,
                        analyze_state: TaskState::Pending,
                    }));
                }
            }
        }
        proof {
            assert(txs@.take(j + 1).drop_last() =~= txs@.take(j as int));
            assert(txs@.take(j + 1).last() == txs@[j as int]);
        }
        j = j + 1;
    }
    proof {
        assert(txs@.take(txs@.len() as int) =~= txs@);
    }
    store.finish_block(block_number);
}

/// The transaction worker's decision on one claimed task, given the
/// fetched receipt status, the deployed contract address and the runtime
/// code there. A failed creation (status 0) or an empty deployment writes
/// nothing; otherwise the artifacts are stored, the code is decoded, and
/// every opcode's occurrence count is added to the block's statistics.
/// Either way the task ends DONE. Returns whether any decoded opcode is
/// unassigned (the caller's warning).
pub fn handle_tx(
    store: &mut TaskStore,
    artifacts: &mut ArtifactStore,
    task: &TxTask,
    receipt_status: u64,
    contract_address: &[u8; 20],
    code: &Vec<u8>,
) -> (had_invalid: bool)
    requires
        old(store).wf(),
        exists|i: int|
            0 <= i < old(store).txs@.len() && (#[trigger] old(store).txs@[i]).tx_hash@
                == task.tx_hash@ && old(store).txs@[i].analyze_state == TaskState::InFlight,
        forall|op: u8|
            spec_stat_count(old(store).stats@, task.block_number, op) + spec_count_byte(
                spec_decode(spec_trim(code@)),
                op,
            ) <= u64::MAX,
    ensures
        final(store).wf(),
        final(store).blocks@ == old(store).blocks@,
        exists|i: int|
            0 <= i < old(store).txs@.len() && (#[trigger] old(store).txs@[i]).tx_hash@
                == task.tx_hash@ && old(store).txs@[i].analyze_state == TaskState::InFlight
                && final(store).txs@ == old(store).txs@.update(
                i,
                TxTask { analyze_state: TaskState::Done, ..old(store).txs@[i] },
            ),
        (receipt_status == 0 || code@.len() == 0) ==> final(store).stats@ == old(store).stats@
            && final(artifacts).init_code@ == old(artifacts).init_code@
            && final(artifacts).tx_contract@ == old(artifacts).tx_contract@
            && final(artifacts).contract@ == old(artifacts).contract@
            && had_invalid == false,
        (receipt_status != 0 && code@.len() > 0) ==> {
            &&& final(artifacts).init_code@ == old(artifacts).init_code@
            &&& final(artifacts).tx_contract@ == old(artifacts).tx_contract@.insert(
                task.tx_hash@,
                contract_address@,
            )
            &&& final(artifacts).contract@ == old(artifacts).contract@.insert(
                contract_address@,
                code@,
            )
            &&& forall|op: u8|
                spec_stat_count(final(store).stats@, task.block_number, op) == spec_stat_count(
                    old(store).stats@,
                    task.block_number,
                    op,
                ) + spec_count_byte(spec_decode(spec_trim(code@)), op)
            &&& forall|n2: u64, op2: u8|
                n2 != task.block_number ==> spec_stat_count(final(store).stats@, n2, op2)
                    == spec_stat_count(old(store).stats@, n2, op2)
            &&& had_invalid == exists|i: int|
                0 <= i < spec_decode(spec_trim(code@)).len() && (#[trigger] spec_decode(
                    spec_trim(code@),
                )[i]).is_code && !spec_is_assigned(spec_decode(spec_trim(code@))[i].value)
        },
{
    if receipt_status == 0 {
        store.finish_tx(&task.tx_hash);
        return false;
    }
    if code.len() == 0 {
        store.finish_tx(&task.tx_hash);
        return false;
    }
    let tx_key = bytes_of(&task.tx_hash);
    let addr_bytes = bytes_of(contract_address);
    artifacts.tx_contract.insert(tx_key, addr_bytes);
    let addr_key = bytes_of(contract_address);
    let code_copy = copy_bytes(code);
    artifacts.contract.insert(addr_key, code_copy);
    let decode_input = copy_bytes(code);
    let ops = Bytecode::from_bytes(decode_input);
    let had_invalid = has_other_invalid(&ops);
    let counts = count_opcodes(&ops);
    let mut b: usize = 0;
    while b < 256
        invariant
            b <= 256,
            store.wf(),
            store.blocks@ == old(store).blocks@,
            store.txs@ == old(store).txs@,
            exists|i: int|
                0 <= i < old(store).txs@.len() && (#[trigger] old(store).txs@[i]).tx_hash@
                    == task.tx_hash@ && old(store).txs@[i].analyze_state == TaskState::InFlight,
            counts@.len() == 256,
            forall|op: int| 0 <= op < 256 ==> counts@[op] == spec_count_byte(ops@, op as u8),
            ops@ == spec_decode(spec_trim(code@)),
            forall|op: u8|
                op < b ==> spec_stat_count(store.stats@, task.block_number, op) == spec_stat_count(
                    old(store).stats@,
                    task.block_number,
                    op,
                ) + spec_count_byte(ops@, op),
            forall|op: u8|
                op >= b ==> spec_stat_count(store.stats@, task.block_number, op)
                    == spec_stat_count(old(store).stats@, task.block_number, op),
            forall|n2: u64, op2: u8|
                n2 != task.block_number ==> spec_stat_count(store.stats@, n2, op2)
                    == spec_stat_count(old(store).stats@, n2, op2),
            forall|op: u8|
                spec_stat_count(old(store).stats@, task.block_number, op) + spec_count_byte(
                    ops@,
                    op,
                ) <= u64::MAX,
        decreases 256 - b,
    {
        let c = counts[b];
        if c > 0 {
            store.append_opcode_statistics(task.block_number, b as u8, c);
        }
        b = b + 1;
    }
    store.finish_tx(&task.tx_hash);
    had_invalid
}

} // verus!
