//! The durable task store, modeled as verified state: two work queues
//! (block tasks and transaction tasks) with claim / finish / recovery
//! transitions, and the per-block opcode statistics with upsert-add.
//!
//! The store the process persists (a relational engine) is I/O; every rule
//! it must obey — key uniqueness, exclusive claims, the recovery sweep,
//! absolute increments — is stated and proved here on the in-memory rows.

use vstd::prelude::*;

use crate::consts::SHANGHAI_FORK;

verus! {

/// Lifecycle of a task row.
#[derive(Copy, Clone, Debug, PartialEq, Eq, Structural)]
pub enum TaskState {
    /// Enqueued, claimable.
    Pending,
    /// Claimed by exactly one worker.
    InFlight,
    /// Completed; kept to supply the resume watermark.
    Done,
}

/// One row of the block queue; `block_number` is the key.
#[derive(Copy, Clone, Debug, PartialEq, Eq, Structural)]
pub struct BlockTask {
    /// Height of the block to fetch.
    pub block_number: u64,
    /// Lifecycle state.
    pub fetch_state: TaskState,
}

/// One row of the transaction queue; `tx_hash` is the key.
#[derive(Copy, Clone, Debug, PartialEq, Eq)]
pub struct TxTask {
    /// Height of the block the transaction sits in.
    pub block_number: u64,
    /// Position of the transaction within its block.
    pub tx_index: u64,
    /// The transaction hash.
    pub tx_hash: [u8; 32],
    /// Lifecycle state.
    pub analyze_state: TaskState,
}

/// One row of the statistics table; `(block_number, opcode)` is the key.
#[derive(Copy, Clone, Debug, PartialEq, Eq, Structural)]
pub struct OpcodeStat {
    /// Height the counts belong to.
    pub block_number: u64,
    /// The opcode byte counted.
    pub opcode: u8,
    /// How many times the opcode was seen in the block so far.
    pub count: u64,
}

/// The whole task store.
pub struct TaskStore {
    /// The block queue.
    pub blocks: Vec<BlockTask>,
    /// The transaction queue.
    pub txs: Vec<TxTask>,
    /// The statistics table.
    pub stats: Vec<OpcodeStat>,
}

/// Whether some row has this block number.
pub open spec fn spec_has_block(s: Seq<BlockTask>, n: u64) -> bool {
    exists|i: int| 0 <= i < s.len() && (#[trigger] s[i]).block_number == n
}

/// At most one row per block number.
pub open spec fn spec_blocks_unique(s: Seq<BlockTask>) -> bool {
    forall|i: int, j: int|
        0 <= i < j < s.len() ==> s[i].block_number != s[j].block_number
}

/// Whether some row has this transaction hash.
pub open spec fn spec_has_tx(s: Seq<TxTask>, h: Seq<u8>) -> bool {
    exists|i: int| 0 <= i < s.len() && (#[trigger] s[i]).tx_hash@ == h
}

/// At most one row per transaction hash.
pub open spec fn spec_txs_unique(s: Seq<TxTask>) -> bool {
    forall|i: int, j: int| 0 <= i < j < s.len() ==> s[i].tx_hash@ != s[j].tx_hash@
}

/// At most one row per `(block_number, opcode)` key.
pub open spec fn spec_stats_unique(s: Seq<OpcodeStat>) -> bool {
    forall|i: int, j: int|
        0 <= i < j < s.len() ==> !(s[i].block_number == s[j].block_number && s[i].opcode
            == s[j].opcode)
}

/// What one row contributes to a key's total.
pub open spec fn spec_stat_contrib(r: OpcodeStat, n: u64, op: u8) -> nat {
    if r.block_number == n && r.opcode == op {
        r.count as nat
    } else {
        0
    }
}

/// Total recorded count for a `(block_number, opcode)` key.
pub open spec fn spec_stat_count(s: Seq<OpcodeStat>, n: u64, op: u8) -> nat
    decreases s.len(),
{
    if s.len() == 0 {
        0
    } else {
        spec_stat_count(s.drop_last(), n, op) + spec_stat_contrib(s.last(), n, op)
    }
}

/// Byte-for-byte equality of two 32-byte hashes.
fn hash_eq(a: &[u8; 32], b: &[u8; 32]) -> (r: bool)
    ensures
        r == (a@ == b@),
{
    let mut i: usize = 0;
    while i < 32
        invariant
            i <= 32,
            forall|j: int| 0 <= j < i ==> a@[j] == b@[j],
        decreases 32 - i,
    {
        if a[i] != b[i] {
            return false;
        }
        i = i + 1;
    }
    proof {
        assert(a@ =~= b@);
    }
    true
}

/// No row with the key means a zero total.
proof fn lemma_stat_count_absent(s: Seq<OpcodeStat>, n: u64, op: u8)
    requires
        forall|i: int|
            0 <= i < s.len() ==> !((#[trigger] s[i]).block_number == n && s[i].opcode == op),
    ensures
        spec_stat_count(s, n, op) == 0,
    decreases s.len(),
{
    if s.len() > 0 {
        assert(s[s.len() - 1] == s.last());
        lemma_stat_count_absent(s.drop_last(), n, op);
    }
}

/// With unique keys, a key's total is exactly its row's count.
proof fn lemma_stat_count_of_match(s: Seq<OpcodeStat>, i: int)
    requires
        spec_stats_unique(s),
        0 <= i < s.len(),
    ensures
        spec_stat_count(s, s[i].block_number, s[i].opcode) == s[i].count,
    decreases s.len(),
{
    let n = s[i].block_number;
    let op = s[i].opcode;
    if i == s.len() - 1 {
        assert(s.drop_last().len() == s.len() - 1);
        assert forall|j: int|
            0 <= j < s.drop_last().len() implies !((#[trigger] s.drop_last()[j]).block_number == n
            && s.drop_last()[j].opcode == op) by {
            assert(s.drop_last()[j] == s[j]);
        }
        lemma_stat_count_absent(s.drop_last(), n, op);
        assert(s.last() == s[i]);
    } else {
        assert(s.drop_last()[i] == s[i]);
        lemma_stat_count_of_match(s.drop_last(), i);
        assert(s.last() == s[s.len() - 1]);
        assert(spec_stat_contrib(s.last(), n, op) == 0);
    }
}

/// Totals after an in-place row update, for every key: what the old row
/// contributed goes, what the new row contributes comes.
proof fn lemma_stat_count_update(s: Seq<OpcodeStat>, i: int, row: OpcodeStat)
    requires
        0 <= i < s.len(),
    ensures
        forall|n: u64, op: u8|
            spec_stat_count(s.update(i, row), n, op) + spec_stat_contrib(s[i], n, op)
                == spec_stat_count(s, n, op) + spec_stat_contrib(row, n, op),
    decreases s.len(),
{
    let u = s.update(i, row);
    if i == s.len() - 1 {
        assert(u.drop_last() =~= s.drop_last());
        assert(u.last() == row);
        assert(s.last() == s[i]);
        assert forall|n: u64, op: u8|
            spec_stat_count(u, n, op) + spec_stat_contrib(s[i], n, op) == spec_stat_count(s, n, op)
                + spec_stat_contrib(row, n, op) by {
            assert(spec_stat_count(u, n, op) == spec_stat_count(u.drop_last(), n, op)
                + spec_stat_contrib(u.last(), n, op));
            assert(spec_stat_count(s, n, op) == spec_stat_count(s.drop_last(), n, op)
                + spec_stat_contrib(s.last(), n, op));
        }
    } else {
        assert(u.drop_last() =~= s.drop_last().update(i, row));
        assert(u.last() == s.last());
        assert(s.drop_last()[i] == s[i]);
        lemma_stat_count_update(s.drop_last(), i, row);
        assert forall|n: u64, op: u8|
            spec_stat_count(u, n, op) + spec_stat_contrib(s[i], n, op) == spec_stat_count(s, n, op)
                + spec_stat_contrib(row, n, op) by {
            assert(spec_stat_count(u, n, op) == spec_stat_count(u.drop_last(), n, op)
                + spec_stat_contrib(u.last(), n, op));
            assert(spec_stat_count(s, n, op) == spec_stat_count(s.drop_last(), n, op)
                + spec_stat_contrib(s.last(), n, op));
            assert(spec_stat_count(s.drop_last().update(i, row), n, op) + spec_stat_contrib(
                s.drop_last()[i],
                n,
                op,
            ) == spec_stat_count(s.drop_last(), n, op) + spec_stat_contrib(row, n, op));
        }
    }
}

/// The largest block number among the rows (0 when there is none; callers
/// guard on emptiness).
pub open spec fn spec_max_block(s: Seq<BlockTask>) -> u64
    decreases s.len(),
{
    if s.len() == 0 {
        0
    } else {
        let m = spec_max_block(s.drop_last());
        if s.last().block_number > m {
            s.last().block_number
        } else {
            m
        }
    }
}

/// The resume watermark: the largest recorded block number, or the height
/// just below the fork when nothing is recorded yet.
pub open spec fn spec_latest_recorded(s: Seq<BlockTask>) -> u64 {
    if s.len() == 0 {
        (SHANGHAI_FORK - 1) as u64
    } else {
        spec_max_block(s)
    }
}

/// The maximum is attained and is an upper bound.
pub proof fn lemma_max_block_bounds(s: Seq<BlockTask>)
    requires
        s.len() > 0,
    ensures
        exists|i: int| 0 <= i < s.len() && (#[trigger] s[i]).block_number == spec_max_block(s),
        forall|i: int| 0 <= i < s.len() ==> (#[trigger] s[i]).block_number <= spec_max_block(s),
    decreases s.len(),
{
    if s.len() == 1 {
        assert((#[trigger] s[0]).block_number == spec_max_block(s));
    } else {
        lemma_max_block_bounds(s.drop_last());
        let m = spec_max_block(s.drop_last());
        if s.last().block_number > m {
            assert((#[trigger] s[s.len() - 1]).block_number == spec_max_block(s));
        } else {
            let i = choose|i: int|
                0 <= i < s.drop_last().len() && (#[trigger] s.drop_last()[i]).block_number == m;
            assert((#[trigger] s[i]).block_number == spec_max_block(s));
        }
        assert forall|i: int| 0 <= i < s.len() implies (#[trigger] s[i]).block_number
            <= spec_max_block(s) by {
            if i < s.len() - 1 {
                assert(s.drop_last()[i] == s[i]);
            }
        }
    }
}

/// What enqueueing block `n` does: a fresh PENDING row when the number is
/// new, a no-op when it is already present.
pub open spec fn spec_submit_block_post(pre: Seq<BlockTask>, post: Seq<BlockTask>, n: u64) -> bool {
    (spec_has_block(pre, n) ==> post == pre) && (!spec_has_block(pre, n) ==> post == pre.push(
        BlockTask { block_number: n, fetch_state: TaskState::Pending },
    ))
}

/// What enqueueing a transaction task does: a fresh PENDING row when the
/// hash is new, a no-op when it is already present.
pub open spec fn spec_submit_tx_post(
    pre: Seq<TxTask>,
    post: Seq<TxTask>,
    block_number: u64,
    tx_index: u64,
    tx_hash: [u8; 32],
) -> bool {
    (spec_has_tx(pre, tx_hash@) ==> post == pre) && (!spec_has_tx(pre, tx_hash@) ==> post
        == pre.push(TxTask { block_number, tx_index, tx_hash, analyze_state: TaskState::Pending }))
}

/// What a successful block claim of `n` does: some PENDING row with number
/// `n` — the smallest PENDING number — becomes IN_FLIGHT; nothing else
/// changes.
pub open spec fn spec_claim_block_post(pre: Seq<BlockTask>, post: Seq<BlockTask>, n: u64) -> bool {
    (exists|i: int|
        0 <= i < pre.len() && pre[i] == (BlockTask {
            block_number: n,
            fetch_state: TaskState::Pending,
        }) && post == pre.update(i, BlockTask { block_number: n, fetch_state: TaskState::InFlight }))
        && (forall|j: int|
        0 <= j < pre.len() && (#[trigger] pre[j]).fetch_state == TaskState::Pending ==> n
            <= pre[j].block_number)
}

/// What a successful transaction claim of `t` does: the first PENDING row,
/// which carries `t`'s payload, becomes IN_FLIGHT; nothing else changes.
pub open spec fn spec_claim_tx_post(pre: Seq<TxTask>, post: Seq<TxTask>, t: TxTask) -> bool {
    t.analyze_state == TaskState::InFlight && exists|i: int|
        0 <= i < pre.len() && pre[i] == (TxTask { analyze_state: TaskState::Pending, ..t }) && post
            == pre.update(i, t) && (forall|j: int|
            0 <= j < i ==> (#[trigger] pre[j]).analyze_state != TaskState::Pending)
}

/// What the block recovery sweep does: IN_FLIGHT rows become PENDING with
/// their payload intact; every other row is untouched.
pub open spec fn spec_reset_blocks_post(pre: Seq<BlockTask>, post: Seq<BlockTask>) -> bool {
    post.len() == pre.len() && forall|i: int|
        0 <= i < pre.len() ==> #[trigger] post[i] == (if pre[i].fetch_state == TaskState::InFlight {
            BlockTask { block_number: pre[i].block_number, fetch_state: TaskState::Pending }
        } else {
            pre[i]
        })
}

/// What the transaction recovery sweep does.
pub open spec fn spec_reset_txs_post(pre: Seq<TxTask>, post: Seq<TxTask>) -> bool {
    post.len() == pre.len() && forall|i: int|
        0 <= i < pre.len() ==> #[trigger] post[i] == (if pre[i].analyze_state
            == TaskState::InFlight {
            TxTask { analyze_state: TaskState::Pending, ..pre[i] }
        } else {
            pre[i]
        })
}

/// What one upsert-add does, stated over key totals: the bumped key's
/// total grows by exactly `count`; every other key's total is unchanged.
pub open spec fn spec_bump_post(
    pre: Seq<OpcodeStat>,
    post: Seq<OpcodeStat>,
    n: u64,
    op: u8,
    count: u64,
) -> bool {
    spec_stat_count(post, n, op) == spec_stat_count(pre, n, op) + count && forall|n2: u64, op2: u8|
        !(n2 == n && op2 == op) ==> spec_stat_count(post, n2, op2) == spec_stat_count(
            pre,
            n2,
            op2,
        )
}

impl TaskStore {
    /// Row uniqueness on all three tables.
    pub open spec fn wf(self) -> bool {
        spec_blocks_unique(self.blocks@) && spec_txs_unique(self.txs@) && spec_stats_unique(
            self.stats@,
        )
    }

    /// A fresh, empty store.
    pub fn new() -> (r: TaskStore)
        ensures
            r.wf(),
            r.blocks@ =~= Seq::<BlockTask>::empty(),
            r.txs@ =~= Seq::<TxTask>::empty(),
            r.stats@ =~= Seq::<OpcodeStat>::empty(),
    {
        TaskStore { blocks: Vec::new(), txs: Vec::new(), stats: Vec::new() }
    }

    /// Enqueue a block task as PENDING; a block number already present is
    /// left exactly as it is.
    pub fn submit_block_task(&mut self, block_number: u64)
        requires
            old(self).wf(),
        ensures
            final(self).wf(),
            final(self).txs@ == old(self).txs@,
            final(self).stats@ == old(self).stats@,
            spec_submit_block_post(old(self).blocks@, final(self).blocks@, block_number),
            spec_has_block(final(self).blocks@, block_number),
    {
        let mut i: usize = 0;
        while i < self.blocks.len()
            invariant
                i <= self.blocks.len(),
                forall|j: int| 0 <= j < i ==> (#[trigger] self.blocks@[j]).block_number != block_number,
                self == old(self),
                old(self).wf(),
            decreases self.blocks.len() - i,
        {
            if self.blocks[i].block_number == block_number {
                proof {
                    assert((#[trigger] self.blocks@[i as int]).block_number == block_number);
                }
                return ;
            }
            i = i + 1;
        }
        self.blocks.push(BlockTask { block_number, fetch_state: TaskState::Pending });
        proof {
            let s = self.blocks@;
            assert((#[trigger] s[s.len() - 1]).block_number == block_number);
            assert forall|a: int, b: int| 0 <= a < b < s.len() implies s[a].block_number
                != s[b].block_number by {
                if b < s.len() - 1 {
                    assert(s[a] == old(self).blocks@[a]);
                    assert(s[b] == old(self).blocks@[b]);
                }
            }
        }
    }

    /// Claim the PENDING block task with the smallest block number:
    /// atomically transition it to IN_FLIGHT and return its number.
    /// `None` exactly when no task is PENDING.
    pub fn claim_block(&mut self) -> (r: Option<u64>)
        requires
            old(self).wf(),
        ensures
            final(self).wf(),
            final(self).txs@ == old(self).txs@,
            final(self).stats@ == old(self).stats@,
            match r {
                None => final(self).blocks@ == old(self).blocks@ && forall|i: int|
                    0 <= i < old(self).blocks@.len() ==> (#[trigger] old(
                        self,
                    ).blocks@[i]).fetch_state != TaskState::Pending,
                Some(n) => spec_claim_block_post(old(self).blocks@, final(self).blocks@, n),
            },
    {
        let mut best_idx: usize = 0;
        let mut found = false;
        let mut i: usize = 0;
        while i < self.blocks.len()
            invariant
                i <= self.blocks.len(),
                self == old(self),
                old(self).wf(),
                found ==> best_idx < i && self.blocks@[best_idx as int].fetch_state
                    == TaskState::Pending,
                found ==> forall|j: int|
                    0 <= j < i && (#[trigger] self.blocks@[j]).fetch_state == TaskState::Pending
                        ==> self.blocks@[best_idx as int].block_number
                        <= self.blocks@[j].block_number,
                !found ==> forall|j: int|
                    0 <= j < i ==> (#[trigger] self.blocks@[j]).fetch_state != TaskState::Pending,
            decreases self.blocks.len() - i,
        {
            let t = self.blocks[i];
            if t.fetch_state == TaskState::Pending {
                if !found || t.block_number < self.blocks[best_idx].block_number {
                    best_idx = i;
                    found = true;
                }
            }
            i = i + 1;
        }
        if !found {
            return None;
        }
        let t = self.blocks[best_idx];
        self.blocks[best_idx] = BlockTask {
            block_number: t.block_number,
            fetch_state: TaskState::InFlight,
        };
        proof {
            let s = self.blocks@;
            let o = old(self).blocks@;
            assert forall|a: int, b: int| 0 <= a < b < s.len() implies s[a].block_number
                != s[b].block_number by {
                assert(s[a].block_number == o[a].block_number);
                assert(s[b].block_number == o[b].block_number);
            }
        }
        Some(t.block_number)
    }

    /// Transition the IN_FLIGHT row with this block number to DONE; exactly
    /// that row changes.
    pub fn finish_block(&mut self, block_number: u64)
        requires
            old(self).wf(),
            exists|i: int|
                0 <= i < old(self).blocks@.len() && old(self).blocks@[i] == (BlockTask {
                    block_number,
                    fetch_state: TaskState::InFlight,
                }),
        ensures
            final(self).wf(),
            final(self).txs@ == old(self).txs@,
            final(self).stats@ == old(self).stats@,
            exists|i: int|
                0 <= i < old(self).blocks@.len() && old(self).blocks@[i] == (BlockTask {
                    block_number,
                    fetch_state: TaskState::InFlight,
                }) && final(self).blocks@ == old(self).blocks@.update(
                    i,
                    BlockTask { block_number, fetch_state: TaskState::Done },
                ),
    {
        let mut i: usize = 0;
        while i < self.blocks.len()
            invariant
                i <= self.blocks.len(),
                self == old(self),
                old(self).wf(),
                exists|k: int|
                    i <= k < self.blocks@.len() && self.blocks@[k] == (BlockTask {
                        block_number,
                        fetch_state: TaskState::InFlight,
                    }),
            decreases self.blocks.len() - i,
        {
            let t = self.blocks[i];
            if t.block_number == block_number {
                proof {
                    let k = choose|k: int|
                        i <= k < self.blocks@.len() && self.blocks@[k] == (BlockTask {
                            block_number,
                            fetch_state: TaskState::InFlight,
                        });
                    assert(self.blocks@[k].block_number == block_number);
                    assert(k == i);
                }
                self.blocks[i] = BlockTask { block_number, fetch_state: TaskState::Done };
                proof {
                    let s = self.blocks@;
                    let o = old(self).blocks@;
                    assert forall|a: int, b: int| 0 <= a < b < s.len() implies s[a].block_number
                        != s[b].block_number by {
                        assert(s[a].block_number == o[a].block_number);
                        assert(s[b].block_number == o[b].block_number);
                    }
                }
                return ;
            }
            proof {
                let k = choose|k: int|
                    i <= k < self.blocks@.len() && self.blocks@[k] == (BlockTask {
                        block_number,
                        fetch_state: TaskState::InFlight,
                    });
                assert(k != i);
            }
            i = i + 1;
        }
        proof {
            // the required IN_FLIGHT row exists, so the loop returns inside
            assert(false);
        }
    }

    /// The startup recovery sweep: every IN_FLIGHT block task goes back to
    /// PENDING, payload intact; other rows are untouched.
    pub fn reset_in_flight_blocks(&mut self)
        requires
            old(self).wf(),
        ensures
            final(self).wf(),
            final(self).txs@ == old(self).txs@,
            final(self).stats@ == old(self).stats@,
            spec_reset_blocks_post(old(self).blocks@, final(self).blocks@),
    {
        let mut i: usize = 0;
        while i < self.blocks.len()
            invariant
                i <= self.blocks@.len(),
                old(self).wf(),
                self.txs@ == old(self).txs@,
                self.stats@ == old(self).stats@,
                self.blocks@.len() == old(self).blocks@.len(),
                forall|j: int|
                    0 <= j < i ==> #[trigger] self.blocks@[j] == (if old(
                        self,
                    ).blocks@[j].fetch_state == TaskState::InFlight {
                        BlockTask {
                            block_number: old(self).blocks@[j].block_number,
                            fetch_state: TaskState::Pending,
                        }
                    } else {
                        old(self).blocks@[j]
                    }),
                forall|j: int|
                    i <= j < self.blocks@.len() ==> #[trigger] self.blocks@[j] == old(
                        self,
                    ).blocks@[j],
            decreases self.blocks.len() - i,
        {
            let t = self.blocks[i];
            if t.fetch_state == TaskState::InFlight {
                self.blocks[i] = BlockTask {
                    block_number: t.block_number,
                    fetch_state: TaskState::Pending,
                };
            }
            i = i + 1;
        }
        proof {
            let s = self.blocks@;
            let o = old(self).blocks@;
            assert forall|a: int, b: int| 0 <= a < b < s.len() implies s[a].block_number
                != s[b].block_number by {
                assert(s[a].block_number == o[a].block_number);
                assert(s[b].block_number == o[b].block_number);
            }
        }
    }

    /// Enqueue a transaction task as PENDING; a hash already present is
    /// left exactly as it is.
    pub fn submit_tx_task(&mut self, block_number: u64, tx_index: u64, tx_hash: [u8; 32])
        requires
            old(self).wf(),
        ensures
            final(self).wf(),
            final(self).blocks@ == old(self).blocks@,
            final(self).stats@ == old(self).stats@,
            spec_submit_tx_post(old(self).txs@, final(self).txs@, block_number, tx_index, tx_hash),
            spec_has_tx(final(self).txs@, tx_hash@),
    {
        let mut i: usize = 0;
        while i < self.txs.len()
            invariant
                i <= self.txs.len(),
                forall|j: int| 0 <= j < i ==> (#[trigger] self.txs@[j]).tx_hash@ != tx_hash@,
                self == old(self),
                old(self).wf(),
            decreases self.txs.len() - i,
        {
            let eq = hash_eq(&self.txs[i].tx_hash, &tx_hash);
            if eq {
                proof {
                    assert((#[trigger] self.txs@[i as int]).tx_hash@ == tx_hash@);
                }
                return ;
            }
            i = i + 1;
        }
        self.txs.push(TxTask { block_number, tx_index, tx_hash, analyze_state: TaskState::Pending });
        proof {
            let s = self.txs@;
            assert((#[trigger] s[s.len() - 1]).tx_hash@ == tx_hash@);
            assert forall|a: int, b: int| 0 <= a < b < s.len() implies s[a].tx_hash@
                != s[b].tx_hash@ by {
                if b < s.len() - 1 {
                    assert(s[a] == old(self).txs@[a]);
                    assert(s[b] == old(self).txs@[b]);
                }
            }
        }
    }

    /// Claim the first PENDING transaction task in queue order: transition
    /// it to IN_FLIGHT and return its payload. `None` exactly when no task
    /// is PENDING.
    pub fn claim_tx(&mut self) -> (r: Option<TxTask>)
        requires
            old(self).wf(),
        ensures
            final(self).wf(),
            final(self).blocks@ == old(self).blocks@,
            final(self).stats@ == old(self).stats@,
            match r {
                None => final(self).txs@ == old(self).txs@ && forall|i: int|
                    0 <= i < old(self).txs@.len() ==> (#[trigger] old(self).txs@[i]).analyze_state
                        != TaskState::Pending,
                Some(t) => spec_claim_tx_post(old(self).txs@, final(self).txs@, t),
            },
    {
        let mut i: usize = 0;
        while i < self.txs.len()
            invariant
                i <= self.txs.len(),
                self == old(self),
                old(self).wf(),
                forall|j: int|
                    0 <= j < i ==> (#[trigger] self.txs@[j]).analyze_state != TaskState::Pending,
            decreases self.txs.len() - i,
        {
            let t = self.txs[i];
            if t.analyze_state == TaskState::Pending {
                let claimed = TxTask {
                    block_number: t.block_number,
                    tx_index: t.tx_index,
                    tx_hash: t.tx_hash,
                    analyze_state: TaskState::InFlight,
                };
                self.txs[i] = claimed;
                proof {
                    let s = self.txs@;
                    let o = old(self).txs@;
                    assert forall|a: int, b: int| 0 <= a < b < s.len() implies s[a].tx_hash@
                        != s[b].tx_hash@ by {
                        assert(s[a].tx_hash == o[a].tx_hash);
                        assert(s[b].tx_hash == o[b].tx_hash);
                    }
                    assert(o[i as int] == (TxTask { analyze_state: TaskState::Pending, ..claimed }));
                }
                return Some(claimed);
            }
            i = i + 1;
        }
        None
    }

    /// Transition the IN_FLIGHT row with this hash to DONE; exactly that
    /// row changes.
    pub fn finish_tx(&mut self, tx_hash: &[u8; 32])
        requires
            old(self).wf(),
            exists|i: int|
                0 <= i < old(self).txs@.len() && (#[trigger] old(self).txs@[i]).tx_hash@
                    == tx_hash@ && old(self).txs@[i].analyze_state == TaskState::InFlight,
        ensures
            final(self).wf(),
            final(self).blocks@ == old(self).blocks@,
            final(self).stats@ == old(self).stats@,
            exists|i: int|
                0 <= i < old(self).txs@.len() && (#[trigger] old(self).txs@[i]).tx_hash@
                    == tx_hash@ && old(self).txs@[i].analyze_state == TaskState::InFlight
                    && final(self).txs@ == old(self).txs@.update(
                    i,
                    TxTask { analyze_state: TaskState::Done, ..old(self).txs@[i] },
                ),
    {
        let mut i: usize = 0;
        while i < self.txs.len()
            invariant
                i <= self.txs.len(),
                self == old(self),
                old(self).wf(),
                exists|k: int|
                    i <= k < self.txs@.len() && (#[trigger] self.txs@[k]).tx_hash@ == tx_hash@
                        && self.txs@[k].analyze_state == TaskState::InFlight,
            decreases self.txs.len() - i,
        {
            let t = self.txs[i];
            let eq = hash_eq(&t.tx_hash, tx_hash);
            proof {
                let k = choose|k: int|
                    i <= k < self.txs@.len() && (#[trigger] self.txs@[k]).tx_hash@ == tx_hash@
                        && self.txs@[k].analyze_state == TaskState::InFlight;
                if t.tx_hash@ == tx_hash@ {
                    assert(k == i);
                } else {
                    assert(k != i);
                }
            }
            if eq {
                self.txs[i] = TxTask {
                    block_number: t.block_number,
                    tx_index: t.tx_index,
                    tx_hash: t.tx_hash,
                    analyze_state: TaskState::Done,
                };
                proof {
                    let s = self.txs@;
                    let o = old(self).txs@;
                    assert forall|a: int, b: int| 0 <= a < b < s.len() implies s[a].tx_hash@
                        != s[b].tx_hash@ by {
                        assert(s[a].tx_hash == o[a].tx_hash);
                        assert(s[b].tx_hash == o[b].tx_hash);
                    }
                    assert(s == o.update(
                        i as int,
                        TxTask { analyze_state: TaskState::Done, ..o[i as int] },
                    ));
                }
                return ;
            }
            i = i + 1;
        }
        proof {
            // the required IN_FLIGHT row exists, so the loop returns inside
            assert(false);
        }
    }

    /// The startup recovery sweep: every IN_FLIGHT transaction task goes
    /// back to PENDING, payload intact; other rows are untouched.
    pub fn reset_in_flight_txs(&mut self)
        requires
            old(self).wf(),
        ensures
            final(self).wf(),
            final(self).blocks@ == old(self).blocks@,
            final(self).stats@ == old(self).stats@,
            spec_reset_txs_post(old(self).txs@, final(self).txs@),
    {
        let mut i: usize = 0;
        while i < self.txs.len()
            invariant
                i <= self.txs@.len(),
                old(self).wf(),
                self.blocks@ == old(self).blocks@,
                self.stats@ == old(self).stats@,
                self.txs@.len() == old(self).txs@.len(),
                forall|j: int|
                    0 <= j < i ==> #[trigger] self.txs@[j] == (if old(self).txs@[j].analyze_state
                        == TaskState::InFlight {
                        TxTask { analyze_state: TaskState::Pending, ..old(self).txs@[j] }
                    } else {
                        old(self).txs@[j]
                    }),
                forall|j: int|
                    i <= j < self.txs@.len() ==> #[trigger] self.txs@[j] == old(self).txs@[j],
            decreases self.txs.len() - i,
        {
            let t = self.txs[i];
            if t.analyze_state == TaskState::InFlight {
                self.txs[i] = TxTask {
                    block_number: t.block_number,
                    tx_index: t.tx_index,
                    tx_hash: t.tx_hash,
                    analyze_state: TaskState::Pending,
                };
            }
            i = i + 1;
        }
        proof {
            let s = self.txs@;
            let o = old(self).txs@;
            assert forall|a: int, b: int| 0 <= a < b < s.len() implies s[a].tx_hash@
                != s[b].tx_hash@ by {
                assert(s[a].tx_hash == o[a].tx_hash);
                assert(s[b].tx_hash == o[b].tx_hash);
            }
        }
    }

    /// The upsert-add of the statistics table: the total for
    /// `(block_number, opcode)` grows by exactly `count` — an absolute
    /// increment, never a set-if-absent — and every other key is unchanged.
    pub fn append_opcode_statistics(&mut self, block_number: u64, opcode: u8, count: u64)
        requires
            old(self).wf(),
            spec_stat_count(old(self).stats@, block_number, opcode) + count <= u64::MAX,
        ensures
            final(self).wf(),
            final(self).blocks@ == old(self).blocks@,
            final(self).txs@ == old(self).txs@,
            spec_bump_post(old(self).stats@, final(self).stats@, block_number, opcode, count),
    {
        let mut i: usize = 0;
        while i < self.stats.len()
            invariant
                i <= self.stats.len(),
                self == old(self),
                old(self).wf(),
                spec_stat_count(old(self).stats@, block_number, opcode) + count <= u64::MAX,
                forall|j: int|
                    0 <= j < i ==> !((#[trigger] self.stats@[j]).block_number == block_number
                        && self.stats@[j].opcode == opcode),
            decreases self.stats.len() - i,
        {
            let row = self.stats[i];
            if row.block_number == block_number && row.opcode == opcode {
                proof {
                    lemma_stat_count_of_match(self.stats@, i as int);
                }
                let new_row = OpcodeStat { block_number, opcode, count: row.count + count };
                self.stats[i] = new_row;
                proof {
                    let o = old(self).stats@;
                    let s = self.stats@;
                    lemma_stat_count_update(o, i as int, new_row);
                    assert forall|a: int, b: int| 0 <= a < b < s.len() implies !(s[a].block_number
                        == s[b].block_number && s[a].opcode == s[b].opcode) by {
                        assert(s[a].block_number == o[a].block_number && s[a].opcode
                            == o[a].opcode);
                        assert(s[b].block_number == o[b].block_number && s[b].opcode
                            == o[b].opcode);
                    }
                    assert forall|n2: u64, op2: u8| !(n2 == block_number && op2 == opcode) implies
                        spec_stat_count(s, n2, op2) == spec_stat_count(o, n2, op2) by {
                        assert(spec_stat_count(s, n2, op2) + spec_stat_contrib(o[i as int], n2, op2)
                            == spec_stat_count(o, n2, op2) + spec_stat_contrib(new_row, n2, op2));
                    }
                    assert(spec_stat_count(s, block_number, opcode) + spec_stat_contrib(
                        o[i as int],
                        block_number,
                        opcode,
                    ) == spec_stat_count(o, block_number, opcode) + spec_stat_contrib(
                        new_row,
                        block_number,
                        opcode,
                    ));
                }
                return ;
            }
            i = i + 1;
        }
        let new_row = OpcodeStat { block_number, opcode, count };
        self.stats.push(new_row);
        proof {
            let o = old(self).stats@;
            let s = self.stats@;
            assert(s.drop_last() =~= o);
            assert(s.last() == new_row);
            assert forall|a: int, b: int| 0 <= a < b < s.len() implies !(s[a].block_number
                == s[b].block_number && s[a].opcode == s[b].opcode) by {
                if b < s.len() - 1 {
                    assert(s[a] == o[a]);
                    assert(s[b] == o[b]);
                } else {
                    assert(s[a] == o[a]);
                }
            }
            assert forall|n2: u64, op2: u8| !(n2 == block_number && op2 == opcode) implies
                spec_stat_count(s, n2, op2) == spec_stat_count(o, n2, op2) by {
                assert(spec_stat_count(s, n2, op2) == spec_stat_count(s.drop_last(), n2, op2)
                    + spec_stat_contrib(s.last(), n2, op2));
            }
            assert(spec_stat_count(s, block_number, opcode) == spec_stat_count(
                s.drop_last(),
                block_number,
                opcode,
            ) + spec_stat_contrib(s.last(), block_number, opcode));
        }
    }

    /// The total recorded for a `(block_number, opcode)` key.
    pub fn stat_count(&self, block_number: u64, opcode: u8) -> (r: u64)
        requires
            self.wf(),
        ensures
            r == spec_stat_count(self.stats@, block_number, opcode),
    {
        let mut i: usize = 0;
        while i < self.stats.len()
            invariant
                i <= self.stats.len(),
                self.wf(),
                forall|j: int|
                    0 <= j < i ==> !((#[trigger] self.stats@[j]).block_number == block_number
                        && self.stats@[j].opcode == opcode),
            decreases self.stats.len() - i,
        {
            let row = self.stats[i];
            if row.block_number == block_number && row.opcode == opcode {
                proof {
                    lemma_stat_count_of_match(self.stats@, i as int);
                }
                return row.count;
            }
            i = i + 1;
        }
        proof {
            lemma_stat_count_absent(self.stats@, block_number, opcode);
        }
        0
    }

    /// The largest block number with any row; the height just below the
    /// fork when the queue is empty. This is the listener's resume
    /// watermark: DONE rows are kept so that it survives restarts.
    pub fn get_latest_recorded_block(&self) -> (r: u64)
        ensures
            r == spec_latest_recorded(self.blocks@),
    {
        if self.blocks.len() == 0 {
            return SHANGHAI_FORK - 1;
        }
        let mut best: u64 = self.blocks[0].block_number;
        let mut i: usize = 1;
        while i < self.blocks.len()
            invariant
                1 <= i <= self.blocks@.len(),
                exists|j: int|
                    0 <= j < i && (#[trigger] self.blocks@[j]).block_number == best,
                forall|j: int| 0 <= j < i ==> (#[trigger] self.blocks@[j]).block_number <= best,
            decreases self.blocks.len() - i,
        {
            let n = self.blocks[i].block_number;
            if n > best {
                best = n;
            }
            proof {
                if n > best || self.blocks@[i as int].block_number == best {
                    assert((#[trigger] self.blocks@[i as int]).block_number <= best);
                }
            }
            i = i + 1;
        }
        proof {
            lemma_max_block_bounds(self.blocks@);
        }
        best
    }
}

/// Law: enqueueing the same block number twice leaves the queue exactly as
/// one enqueue left it — one row per number.
pub proof fn lemma_submit_block_idempotent(
    s0: Seq<BlockTask>,
    s1: Seq<BlockTask>,
    s2: Seq<BlockTask>,
    n: u64,
)
    requires
        spec_submit_block_post(s0, s1, n),
        spec_submit_block_post(s1, s2, n),
    ensures
        s2 == s1,
{
    if !spec_has_block(s0, n) {
        assert((#[trigger] s1[s1.len() - 1]).block_number == n);
        assert(spec_has_block(s1, n));
    }
}

/// Law: enqueueing the same transaction hash twice leaves the queue
/// exactly as one enqueue left it — one row per hash.
pub proof fn lemma_submit_tx_idempotent(
    s0: Seq<TxTask>,
    s1: Seq<TxTask>,
    s2: Seq<TxTask>,
    block_number: u64,
    tx_index: u64,
    tx_hash: [u8; 32],
)
    requires
        spec_submit_tx_post(s0, s1, block_number, tx_index, tx_hash),
        spec_submit_tx_post(s1, s2, block_number, tx_index, tx_hash),
    ensures
        s2 == s1,
{
    if !spec_has_tx(s0, tx_hash@) {
        assert((#[trigger] s1[s1.len() - 1]).tx_hash@ == tx_hash@);
        assert(spec_has_tx(s1, tx_hash@));
    }
}

/// Law: in any interleaving of claims — here, any two consecutive
/// successful ones on a queue with unique keys — no block task is handed
/// to two claimers.
pub proof fn lemma_block_claims_exclusive(
    s0: Seq<BlockTask>,
    s1: Seq<BlockTask>,
    s2: Seq<BlockTask>,
    n1: u64,
    n2: u64,
)
    requires
        spec_blocks_unique(s0),
        spec_claim_block_post(s0, s1, n1),
        spec_claim_block_post(s1, s2, n2),
    ensures
        n1 != n2,
{
    let i1 = choose|i: int|
        0 <= i < s0.len() && s0[i] == (BlockTask { block_number: n1, fetch_state: TaskState::Pending })
            && s1 == s0.update(i, BlockTask { block_number: n1, fetch_state: TaskState::InFlight });
    let i2 = choose|i: int|
        0 <= i < s1.len() && s1[i] == (BlockTask { block_number: n2, fetch_state: TaskState::Pending })
            && s2 == s1.update(i, BlockTask { block_number: n2, fetch_state: TaskState::InFlight });
    if n1 == n2 {
        if i1 != i2 {
            assert(s0[i2].block_number == n1);
            assert(s0[i1].block_number == n1);
        }
        assert(false);
    }
}

/// Law: no transaction task is handed to two claimers.
pub proof fn lemma_tx_claims_exclusive(
    s0: Seq<TxTask>,
    s1: Seq<TxTask>,
    s2: Seq<TxTask>,
    t1: TxTask,
    t2: TxTask,
)
    requires
        spec_txs_unique(s0),
        spec_claim_tx_post(s0, s1, t1),
        spec_claim_tx_post(s1, s2, t2),
    ensures
        t1.tx_hash@ != t2.tx_hash@,
{
    let i1 = choose|i: int|
        0 <= i < s0.len() && s0[i] == (TxTask { analyze_state: TaskState::Pending, ..t1 }) && s1
            == s0.update(i, t1);
    let i2 = choose|i: int|
        0 <= i < s1.len() && s1[i] == (TxTask { analyze_state: TaskState::Pending, ..t2 }) && s2
            == s1.update(i, t2);
    if t1.tx_hash@ == t2.tx_hash@ {
        if i1 != i2 {
            assert(s0[i2].tx_hash@ == t1.tx_hash@);
            assert(s0[i1].tx_hash@ == t1.tx_hash@);
        }
        assert(false);
    }
}

/// How many block tasks are PENDING.
pub open spec fn spec_count_pending(s: Seq<BlockTask>) -> nat
    decreases s.len(),
{
    if s.len() == 0 {
        0
    } else {
        spec_count_pending(s.drop_last()) + if s.last().fetch_state == TaskState::Pending {
            1nat
        } else {
            0nat
        }
    }
}

proof fn lemma_count_pending_update(s: Seq<BlockTask>, i: int, row: BlockTask)
    requires
        0 <= i < s.len(),
    ensures
        spec_count_pending(s.update(i, row)) + (if s[i].fetch_state == TaskState::Pending {
            1nat
        } else {
            0nat
        }) == spec_count_pending(s) + (if row.fetch_state == TaskState::Pending {
            1nat
        } else {
            0nat
        }),
    decreases s.len(),
{
    let u = s.update(i, row);
    if i == s.len() - 1 {
        assert(u.drop_last() =~= s.drop_last());
        assert(u.last() == row);
        assert(s.last() == s[i]);
    } else {
        assert(u.drop_last() =~= s.drop_last().update(i, row));
        assert(u.last() == s.last());
        assert(s.drop_last()[i] == s[i]);
        lemma_count_pending_update(s.drop_last(), i, row);
    }
}

/// Law: a successful claim consumes exactly one PENDING task — and the
/// claim contract returns `None` only when no task is PENDING — so
/// repeated claims reach every PENDING task.
pub proof fn lemma_claim_consumes_one_pending(
    pre: Seq<BlockTask>,
    post: Seq<BlockTask>,
    n: u64,
)
    requires
        spec_claim_block_post(pre, post, n),
    ensures
        spec_count_pending(post) + 1 == spec_count_pending(pre),
{
    let i = choose|i: int|
        0 <= i < pre.len() && pre[i] == (BlockTask { block_number: n, fetch_state: TaskState::Pending })
            && post == pre.update(i, BlockTask { block_number: n, fetch_state: TaskState::InFlight });
    lemma_count_pending_update(
        pre,
        i,
        BlockTask { block_number: n, fetch_state: TaskState::InFlight },
    );
}

/// Law: a claimed block task that is never finished is claimable again
/// after the recovery sweep.
pub proof fn lemma_recovery_restores_claimed_block(
    s0: Seq<BlockTask>,
    s1: Seq<BlockTask>,
    s2: Seq<BlockTask>,
    n: u64,
)
    requires
        spec_claim_block_post(s0, s1, n),
        spec_reset_blocks_post(s1, s2),
    ensures
        exists|i: int|
            0 <= i < s2.len() && s2[i] == (BlockTask {
                block_number: n,
                fetch_state: TaskState::Pending,
            }),
{
    let i1 = choose|i: int|
        0 <= i < s0.len() && s0[i] == (BlockTask { block_number: n, fetch_state: TaskState::Pending })
            && s1 == s0.update(i, BlockTask { block_number: n, fetch_state: TaskState::InFlight });
    assert(s2[i1] == (BlockTask { block_number: n, fetch_state: TaskState::Pending }));
}

/// Law: a claimed transaction task that is never finished is claimable
/// again after the recovery sweep, payload intact.
pub proof fn lemma_recovery_restores_claimed_tx(
    s0: Seq<TxTask>,
    s1: Seq<TxTask>,
    s2: Seq<TxTask>,
    t: TxTask,
)
    requires
        spec_claim_tx_post(s0, s1, t),
        spec_reset_txs_post(s1, s2),
    ensures
        exists|i: int|
            0 <= i < s2.len() && s2[i] == (TxTask { analyze_state: TaskState::Pending, ..t }),
{
    let i1 = choose|i: int|
        0 <= i < s0.len() && s0[i] == (TxTask { analyze_state: TaskState::Pending, ..t }) && s1
            == s0.update(i, t);
    assert(s2[i1] == (TxTask { analyze_state: TaskState::Pending, ..t }));
}

/// Law: totals never decrease under an upsert-add.
pub proof fn lemma_bump_monotonic(
    pre: Seq<OpcodeStat>,
    post: Seq<OpcodeStat>,
    n: u64,
    op: u8,
    count: u64,
)
    requires
        spec_bump_post(pre, post, n, op, count),
    ensures
        forall|n2: u64, op2: u8|
            spec_stat_count(post, n2, op2) >= spec_stat_count(pre, n2, op2),
{
    assert forall|n2: u64, op2: u8|
        spec_stat_count(post, n2, op2) >= spec_stat_count(pre, n2, op2) by {
        if !(n2 == n && op2 == op) {
            assert(spec_stat_count(post, n2, op2) == spec_stat_count(pre, n2, op2));
        }
    }
}

/// Law: two upsert-adds commute — both orders end with identical totals on
/// every key, so transaction processing order cannot change final
/// statistics.
pub proof fn lemma_bump_commutes(
    s0: Seq<OpcodeStat>,
    s1: Seq<OpcodeStat>,
    s2: Seq<OpcodeStat>,
    t1: Seq<OpcodeStat>,
    t2: Seq<OpcodeStat>,
    n_a: u64,
    op_a: u8,
    c_a: u64,
    n_b: u64,
    op_b: u8,
    c_b: u64,
)
    requires
        spec_bump_post(s0, s1, n_a, op_a, c_a),
        spec_bump_post(s1, s2, n_b, op_b, c_b),
        spec_bump_post(s0, t1, n_b, op_b, c_b),
        spec_bump_post(t1, t2, n_a, op_a, c_a),
    ensures
        forall|n: u64, op: u8| spec_stat_count(s2, n, op) == spec_stat_count(t2, n, op),
{
    assert forall|n: u64, op: u8|
        spec_stat_count(s2, n, op) == spec_stat_count(t2, n, op) by {
        if !(n == n_a && op == op_a) {
            assert(spec_stat_count(s1, n, op) == spec_stat_count(s0, n, op));
            assert(spec_stat_count(t2, n, op) == spec_stat_count(t1, n, op));
        }
        if !(n == n_b && op == op_b) {
            assert(spec_stat_count(s2, n, op) == spec_stat_count(s1, n, op));
            assert(spec_stat_count(t1, n, op) == spec_stat_count(s0, n, op));
        }
    }
}

/// What one transaction's whole statistics contribution does: every opcode
/// total of its block grows by that opcode's count in the decoded code,
/// and other blocks are untouched. The transaction worker's postcondition
/// has exactly this shape.
pub open spec fn spec_accumulate_post(
    pre: Seq<OpcodeStat>,
    post: Seq<OpcodeStat>,
    block_number: u64,
    counts: spec_fn(u8) -> nat,
) -> bool {
    (forall|op: u8|
        spec_stat_count(post, block_number, op) == spec_stat_count(pre, block_number, op) + counts(
            op,
        )) && (forall|n2: u64, op2: u8|
        n2 != block_number ==> spec_stat_count(post, n2, op2) == spec_stat_count(pre, n2, op2))
}

/// Law: two transactions' statistics contributions commute — whichever is
/// processed first, every per-block opcode total comes out the same.
pub proof fn lemma_tx_accumulation_commutes(
    s0: Seq<OpcodeStat>,
    s1: Seq<OpcodeStat>,
    s2: Seq<OpcodeStat>,
    t1: Seq<OpcodeStat>,
    t2: Seq<OpcodeStat>,
    bn_a: u64,
    counts_a: spec_fn(u8) -> nat,
    bn_b: u64,
    counts_b: spec_fn(u8) -> nat,
)
    requires
        spec_accumulate_post(s0, s1, bn_a, counts_a),
        spec_accumulate_post(s1, s2, bn_b, counts_b),
        spec_accumulate_post(s0, t1, bn_b, counts_b),
        spec_accumulate_post(t1, t2, bn_a, counts_a),
    ensures
        forall|n: u64, op: u8| spec_stat_count(s2, n, op) == spec_stat_count(t2, n, op),
{
    assert forall|n: u64, op: u8|
        spec_stat_count(s2, n, op) == spec_stat_count(t2, n, op) by {
        if n != bn_a {
            assert(spec_stat_count(s1, n, op) == spec_stat_count(s0, n, op));
            assert(spec_stat_count(t2, n, op) == spec_stat_count(t1, n, op));
        }
        if n != bn_b {
            assert(spec_stat_count(s2, n, op) == spec_stat_count(s1, n, op));
            assert(spec_stat_count(t1, n, op) == spec_stat_count(s0, n, op));
        }
    }
}

/// Law: at-least-once delivery is visible in the data: re-applying the
/// same per-transaction increment counts the transaction twice.
pub proof fn lemma_bump_twice_double_counts(
    s0: Seq<OpcodeStat>,
    s1: Seq<OpcodeStat>,
    s2: Seq<OpcodeStat>,
    n: u64,
    op: u8,
    count: u64,
)
    requires
        spec_bump_post(s0, s1, n, op, count),
        spec_bump_post(s1, s2, n, op, count),
    ensures
        spec_stat_count(s2, n, op) == spec_stat_count(s0, n, op) + 2 * count,
{
}

} // verus!
