//! The scheduler and runtime state of batches of transactions.
//!
//! Transactions of a batch access resources; every access is linked to the previous access
//! of the same resource, so that the state a transaction writes becomes the state the next
//! accessor reads. Per batch and resource a state diff records the state before and after
//! the batch, which storage persists together with a rollback pointer. Every step of the
//! runtime is a transition of `RuntimeManager`; threads, waiting and the VM stay with
//! the caller, which feeds their results back as events.

use vstd::prelude::*;

use crate::access::{AccessMetadata, AccessType, Transaction, distinct_resources};
use crate::chain::{Chain, ChainView};
use crate::deque::{
    injector_contents, injector_is_empty, injector_len, injector_new, injector_push, injector_steal_batch_and_pop,
    Stolen,
};
use crossbeam_deque::{Injector, Worker};
use crate::state::State;
use crate::rollback::{has_rollback_layout, rolled_back, rollback_layout, Rollback};
use crate::store::{apply_ops, Store, StoreView, WriteOpView};
use crate::versioned_state::{
    data_write, latest_data_available, latest_ptr_write, latest_readable, latest_state, rollback_ptr_write,
    VersionedState, VersionedStateView,
};
use std::collections::HashMap;

verus! {

broadcast use vstd::std_specs::hash::group_hash_axioms;

pub open spec fn opt_view(o: Option<VersionedState>) -> Option<VersionedStateView> {
    match o {
        Some(s) => Some(s@),
        None => None,
    }
}

// ---------------------------------------------------------------------------------------
// Views

/// One access of a resource by a transaction.
pub struct AccessView {
    pub metadata: AccessMetadata,
    pub tx: usize,
    pub state_diff: usize,
    pub is_batch_head: bool,
    pub is_batch_tail: bool,
    pub read_state: Option<VersionedStateView>,
    pub written_state: Option<VersionedStateView>,
    pub prev: Option<usize>,
    pub next: Option<usize>,
}

pub struct TxView {
    pub batch: usize,
    pub resources: Seq<usize>,
    pub pending_resources: u64,
}

pub struct StateDiffView {
    pub batch: usize,
    pub resource_id: u64,
    pub read_state: Option<VersionedStateView>,
    pub written_state: Option<VersionedStateView>,
}

pub struct BatchView {
    pub chain: usize,
    pub index: u64,
    pub txs: Seq<usize>,
    pub state_diffs: Seq<usize>,
    pub available_txs: Seq<usize>,
    pub pending_txs: u64,
    pub pending_writes: i64,
    pub was_processed: bool,
    pub was_persisted: bool,
    pub was_committed: bool,
}

/// A storage read command.
pub enum ReadView {
    LatestData(usize),
}

/// A storage write command.
pub enum WriteView {
    StateDiff(usize),
    CommitBatch(usize),
    Rollback { lower_bound: u64, upper_bound: u64 },
}

/// The whole runtime state.
pub struct ManagerView {
    pub chains: Seq<ChainView>,
    pub longest_chain: usize,
    pub resources: Map<u64, usize>,
    pub accesses: Seq<AccessView>,
    pub txs: Seq<TxView>,
    pub state_diffs: Seq<StateDiffView>,
    pub batches: Seq<BatchView>,
    pub store: StoreView,
    pub reads: Seq<ReadView>,
    pub writes: Seq<WriteView>,
}

/// Every reference between the parts of the state points at a part that exists, and the
/// accesses of a resource are linked from older to newer.
pub open spec fn wf_view(m: ManagerView) -> bool {
    &&& m.longest_chain < m.chains.len()
    &&& forall|b: int|
        0 <= b < m.batches.len() ==> {
            let x = #[trigger] m.batches[b];
            &&& x.chain < m.chains.len()
            &&& forall|i: int| 0 <= i < x.txs.len() ==> x.txs[i] < m.txs.len()
            &&& forall|i: int| 0 <= i < x.state_diffs.len() ==> x.state_diffs[i] < m.state_diffs.len()
            &&& forall|i: int| 0 <= i < x.available_txs.len() ==> x.available_txs[i] < m.txs.len()
        }
    &&& forall|t: int|
        0 <= t < m.txs.len() ==> {
            let x = #[trigger] m.txs[t];
            &&& x.batch < m.batches.len()
            &&& forall|i: int| 0 <= i < x.resources.len() ==> x.resources[i] < m.accesses.len()
        }
    &&& forall|a: int|
        0 <= a < m.accesses.len() ==> {
            let x = #[trigger] m.accesses[a];
            &&& x.tx < m.txs.len()
            &&& x.state_diff < m.state_diffs.len()
            &&& (x.prev matches Some(p) ==> p < a)
            &&& (x.next matches Some(n) ==> a < n < m.accesses.len())
        }
    &&& forall|d: int| 0 <= d < m.state_diffs.len() ==> (#[trigger] m.state_diffs[d]).batch < m.batches.len()
    &&& forall|id: u64| #[trigger] m.resources.contains_key(id) ==> m.resources[id] < m.accesses.len()
    &&& forall|i: int|
        0 <= i < m.reads.len() ==> (#[trigger] m.reads[i] matches ReadView::LatestData(a) ==> a < m.accesses.len())
    &&& forall|i: int|
        0 <= i < m.writes.len() ==> match #[trigger] m.writes[i] {
            WriteView::StateDiff(d) => d < m.state_diffs.len(),
            WriteView::CommitBatch(b) => b < m.batches.len(),
            WriteView::Rollback { .. } => true,
        }
}


// ---------------------------------------------------------------------------------------
// Laws

/// `m2` keeps the chains, the store and the number and chain of every batch of `m1`.
pub open spec fn keeps_numbering_and_store(m1: ManagerView, m2: ManagerView) -> bool {
    &&& m2.chains == m1.chains
    &&& m2.longest_chain == m1.longest_chain
    &&& m2.store == m1.store
    &&& m2.batches.len() == m1.batches.len()
    &&& forall|b: int|
        0 <= b < m1.batches.len() ==> (#[trigger] m2.batches[b]).index == m1.batches[b].index
            && m2.batches[b].chain == m1.batches[b].chain
}

proof fn lemma_keeps_trans(m1: ManagerView, m2: ManagerView, m3: ManagerView)
    requires
        keeps_numbering_and_store(m1, m2),
        keeps_numbering_and_store(m2, m3),
    ensures
        keeps_numbering_and_store(m1, m3),
{
    assert forall|b: int| 0 <= b < m1.batches.len() implies (#[trigger] m3.batches[b]).index == m1.batches[b].index
        && m3.batches[b].chain == m1.batches[b].chain by {
        assert(m2.batches[b].index == m1.batches[b].index);
    }
}

/// Publishing states keeps the numbering, the chains and the store.
proof fn lemma_publish_keeps(m: ManagerView, a: int, st: VersionedStateView, read: bool)
    ensures
        keeps_numbering_and_store(m, if read { set_read_state(m, a, st) } else { set_written_state(m, a, st) }),
    decreases m.accesses.len() - a, if read { 1int } else { 0int },
{
    if !(0 <= a < m.accesses.len()) {
        return;
    }
    let x = m.accesses[a];
    if read {
        if x.read_state is None {
            let m1 = set_access(m, a, AccessView { read_state: Some(st), prev: None, ..x });
            let m2 = if x.is_batch_head {
                let d = x.state_diff as int;
                set_diff(m1, d, StateDiffView { read_state: Some(st), ..m1.state_diffs[d] })
            } else {
                m1
            };
            let m3 = if x.metadata.access_type == AccessType::Read {
                set_written_state(m2, a, st)
            } else {
                m2
            };
            if x.metadata.access_type == AccessType::Read {
                lemma_publish_keeps(m2, a, st, false);
            }
            let m4 = decrease_pending_resources(m3, x.tx as int);
            assert(keeps_numbering_and_store(m3, m4)) by {
                let t = x.tx as int;
                if 0 <= t < m3.txs.len() && 0 <= m3.txs[t].batch < m3.batches.len() {
                    assert forall|b: int| 0 <= b < m3.batches.len() implies (#[trigger] m4.batches[b]).index
                        == m3.batches[b].index && m4.batches[b].chain == m3.batches[b].chain by {}
                }
            }
            lemma_keeps_trans(m, m2, m3);
            lemma_keeps_trans(m, m3, m4);
        }
    } else {
        if x.written_state is None {
            let m1 = set_access(m, a, AccessView { written_state: Some(st), ..x });
            let m2 = if x.is_batch_tail {
                let d = x.state_diff as int;
                let m1b = set_diff(m1, d, StateDiffView { written_state: Some(st), ..m1.state_diffs[d] });
                submit_write(m1b, m1b.state_diffs[d].batch as int, WriteView::StateDiff(x.state_diff))
            } else {
                m1
            };
            assert(keeps_numbering_and_store(m, m2));
            if let Some(n) = x.next {
                if a < n < m2.accesses.len() {
                    lemma_publish_keeps(m2, n as int, st, true);
                    lemma_keeps_trans(m, m2, set_read_state(m2, n as int, st));
                }
            }
        }
    }
}

proof fn lemma_add_accesses_keeps(m: ManagerView, t: int, metas: Seq<AccessMetadata>)
    ensures
        keeps_numbering_and_store(m, add_accesses(m, t, metas)),
    decreases metas.len(),
{
    if metas.len() > 0 {
        lemma_add_accesses_keeps(m, t, metas.drop_last());
        let m1 = add_accesses(m, t, metas.drop_last());
        let m2 = add_access(m1, t, metas.last());
        assert(keeps_numbering_and_store(m1, m2));
        lemma_keeps_trans(m, m1, m2);
    }
}

proof fn lemma_add_txs_keeps(m: ManagerView, b: int, txs: Seq<Seq<AccessMetadata>>)
    ensures
        keeps_numbering_and_store(m, add_txs(m, b, txs)),
    decreases txs.len(),
{
    if txs.len() > 0 {
        lemma_add_txs_keeps(m, b, txs.drop_last());
        let m1 = add_txs(m, b, txs.drop_last());
        let metas = txs.last();
        let t = m1.txs.len() as int;
        let m1a = ManagerView {
            txs: m1.txs.push(TxView { batch: b as usize, resources: Seq::empty(), pending_resources: 0 }),
            ..m1
        };
        lemma_add_accesses_keeps(m1a, t, metas);
        let m2 = add_accesses(m1a, t, metas);
        let m3 = set_tx(m2, t, TxView { pending_resources: metas.len() as u64, ..m2.txs[t] });
        let m4 = set_batch(m3, b, BatchView { txs: m3.batches[b].txs.push(t as usize), ..m3.batches[b] });
        assert(keeps_numbering_and_store(m1, m1a));
        lemma_keeps_trans(m1, m1a, m2);
        assert(keeps_numbering_and_store(m2, m3));
        assert(keeps_numbering_and_store(m3, m4));
        lemma_keeps_trans(m1, m2, m3);
        lemma_keeps_trans(m1, m3, m4);
        lemma_keeps_trans(m, m1, m4);
    }
}

proof fn lemma_connect_range_keeps(m: ManagerView, lo: int, hi: int)
    ensures
        keeps_numbering_and_store(m, connect_range(m, lo, hi)),
    decreases hi - lo,
{
    if hi > lo {
        lemma_connect_range_keeps(m, lo, hi - 1);
        let m1 = connect_range(m, lo, hi - 1);
        let a = hi - 1;
        match m1.accesses[a].prev {
            Some(p) => {
                let m2 = set_access(m1, p as int, AccessView { next: Some(a as usize), ..m1.accesses[p as int] });
                assert(keeps_numbering_and_store(m1, m2));
                if let Some(w) = m2.accesses[p as int].written_state {
                    lemma_publish_keeps(m2, a, w, true);
                    lemma_keeps_trans(m1, m2, set_read_state(m2, a, w));
                }
                lemma_keeps_trans(m, m1, connect(m1, a));
            },
            None => {
                assert(keeps_numbering_and_store(m1, connect(m1, a)));
                lemma_keeps_trans(m, m1, connect(m1, a));
            },
        }
    }
}

/// Law: scheduling numbers the new batch with the counter of the longest chain and
/// advances that counter by one (wrapping); it keeps every earlier batch's number and
/// chain, and it never changes the store.
pub proof fn lemma_schedule_numbering(m: ManagerView, txs: Seq<Seq<AccessMetadata>>)
    requires
        wf_view(m),
    ensures
        ({
            let m2 = schedule(m, txs);
            let c = m.longest_chain as int;
            &&& m2.batches.len() == m.batches.len() + 1
            &&& m2.batches[m.batches.len() as int].index == m.chains[c].last_batch_index
            &&& m2.batches[m.batches.len() as int].chain == m.longest_chain
            &&& m2.chains[c].last_batch_index == crate::chain::wrapping_inc(m.chains[c].last_batch_index)
            &&& m2.chains[c].rollback_threshold == m.chains[c].rollback_threshold
            &&& m2.longest_chain == m.longest_chain
            &&& m2.store == m.store
            &&& forall|b: int|
                0 <= b < m.batches.len() ==> (#[trigger] m2.batches[b]).index == m.batches[b].index
                    && m2.batches[b].chain == m.batches[b].chain
        }),
{
    let c = m.longest_chain as int;
    let index = m.chains[c].last_batch_index;
    let m1 = ManagerView {
        chains: m.chains.update(c, ChainView { last_batch_index: crate::chain::wrapping_inc(index), ..m.chains[c] }),
        ..m
    };
    let b = m1.batches.len();
    let m2 = ManagerView {
        batches: m1.batches.push(
            BatchView {
                chain: m.longest_chain,
                index,
                txs: Seq::empty(),
                state_diffs: Seq::empty(),
                available_txs: Seq::empty(),
                pending_txs: txs.len() as u64,
                pending_writes: 0,
                was_processed: false,
                was_persisted: false,
                was_committed: false,
            },
        ),
        ..m1
    };
    lemma_add_txs_keeps(m2, b as int, txs);
    let m3 = add_txs(m2, b as int, txs);
    lemma_connect_range_keeps(m3, m.accesses.len() as int, m3.accesses.len() as int);
    lemma_keeps_trans(m2, m3, schedule(m, txs));
    assert(m2.batches[b as int].index == index);
    assert forall|b2: int| 0 <= b2 < m.batches.len() implies (#[trigger] schedule(m, txs).batches[b2]).index
        == m.batches[b2].index && schedule(m, txs).batches[b2].chain == m.batches[b2].chain by {
        assert(m2.batches[b2] == m.batches[b2]);
    }
}

/// Law: after rolling back to `target`, a batch of the chain that was longest is canceled
/// exactly when its index is beyond `target`; other batches keep their status. A canceled
/// batch sends no state diff and no commit to storage, and its commit writes nothing.
pub proof fn lemma_rollback_to_cancels(m: ManagerView, target: u64, b: int)
    requires
        wf_view(m),
        0 <= b < m.batches.len(),
    ensures
        ({
            let m2 = rollback_to(m, target);
            let c = m.longest_chain;
            &&& m2.batches == m.batches
            &&& if last_scheduled(m) is Some && last_scheduled(m)->0 > target && m.batches[b].chain == c {
                was_canceled(m2, b) <==> m.batches[b].index > target
            } else {
                was_canceled(m2, b) == was_canceled(m, b)
            }
        }),
        forall|w: WriteView| was_canceled(m, b) ==> #[trigger] submit_write(m, b, w) == m,
        was_canceled(m, b) ==> schedule_commit(m, b) == m && commit_ops(m, b).len() == 0,
{
}

/// Law: adding an access of transaction `t` to resource `meta.id` makes it the resource's
/// last access, linked after the one before it; it is its batch's tail for the resource,
/// and its head exactly when the access before it is of another batch (or there is none).
/// A head opens a new state diff for the batch and resource; otherwise the access shares
/// the diff of the access before it, which stops being the tail.
pub proof fn lemma_add_access_links<T>(rt: &RuntimeManager<T>, t: int, meta: AccessMetadata)
    requires
        rt.wf(),
        0 <= t < rt@.txs.len(),
    ensures
        ({
            let m = rt@;
            let m2 = add_access(m, t, meta);
            let a = m.accesses.len() as int;
            let b = m.txs[t].batch as int;
            let last: Option<usize> = if m.resources.contains_key(meta.id) {
                Some(m.resources[meta.id])
            } else {
                None
            };
            let head = !(last matches Some(p) && m.txs[m.accesses[p as int].tx as int].batch == b);
            let x = m2.accesses[a];
            &&& m2.accesses.len() == a + 1
            &&& m2.resources == m.resources.insert(meta.id, a as usize)
            &&& x.prev == last && x.next is None
            &&& x.read_state is None && x.written_state is None
            &&& x.metadata == meta && x.tx == t
            &&& x.is_batch_tail && x.is_batch_head == head
            &&& m2.txs[t].resources == m.txs[t].resources.push(a as usize)
            &&& head ==> {
                &&& x.state_diff == m.state_diffs.len()
                &&& m2.state_diffs == m.state_diffs.push(
                    StateDiffView { batch: b as usize, resource_id: meta.id, read_state: None, written_state: None },
                )
                &&& m2.batches[b].state_diffs == m.batches[b].state_diffs.push(x.state_diff)
            }
            &&& !head ==> {
                &&& x.state_diff == m.accesses[last->0 as int].state_diff
                &&& !m2.accesses[last->0 as int].is_batch_tail
                &&& m2.state_diffs == m.state_diffs
            }
        }),
{
    rt.lemma_wf_view();
    let m = rt@;
    if m.resources.contains_key(meta.id) {
        assert(m.resources[meta.id] < m.accesses.len());
    }
}

/// Law: after rolling back to `target` when the longest chain is beyond it, the next batch
/// is numbered `target`, the first index of the chain that `Chain::rollback` starts.
pub proof fn lemma_rollback_then_schedule<T>(rt: &RuntimeManager<T>, target: u64, txs: Seq<Seq<AccessMetadata>>)
    requires
        rt.wf(),
        last_scheduled(rt@) is Some,
        last_scheduled(rt@)->0 > target,
    ensures
        ({
            let m2 = schedule(rollback_to(rt@, target), txs);
            &&& m2.batches.len() == rt@.batches.len() + 1
            &&& m2.batches[rt@.batches.len() as int].index == target
        }),
{
    rt.lemma_wf_view();
    let m = rt@;
    let m1 = rollback_to(m, target);
    assert(m1.chains[m1.longest_chain as int].last_batch_index == target);
    assert(wf_view(m1)) by {
        assert forall|b: int| 0 <= b < m1.batches.len() implies (#[trigger] m1.batches[b]).chain < m1.chains.len() by {
            assert(m.batches[b].chain < m.chains.len());
        }
        assert forall|i: int| 0 <= i < m1.writes.len() implies match #[trigger] m1.writes[i] {
            WriteView::StateDiff(d) => d < m1.state_diffs.len(),
            WriteView::CommitBatch(b) => b < m1.batches.len(),
            WriteView::Rollback { .. } => true,
        } by {
            if i < m.writes.len() {
                assert(m1.writes[i] == m.writes[i]);
            }
        }
    }
    lemma_schedule_numbering(m1, txs);
}

/// Law: access `a` of transaction `t` learning its read state `st`: it reads `st` and no
/// longer waits for an access before it; as the head of its batch it records `st` as the
/// state diff's read state; as a read-only access it passes `st` on as its written state;
/// and `t` waits for one access fewer, becoming available, once, exactly when that was its
/// last. (A read-only access that another one already follows passes `st` on to it too.)
pub proof fn lemma_set_read_state_step(m: ManagerView, a: int, st: VersionedStateView)
    requires
        wf_view(m),
        0 <= a < m.accesses.len(),
        m.accesses[a].read_state is None,
        m.accesses[a].written_state is None,
        m.accesses[a].metadata.access_type == AccessType::Write || m.accesses[a].next is None,
        m.txs[m.accesses[a].tx as int].pending_resources >= 1,
    ensures
        ({
            let x = m.accesses[a];
            let t = x.tx as int;
            let k = m.txs[t].pending_resources;
            let b = m.txs[t].batch as int;
            let m2 = set_read_state(m, a, st);
            &&& m2.accesses[a].read_state == Some(st)
            &&& m2.accesses[a].prev is None
            &&& x.is_batch_head ==> m2.state_diffs[x.state_diff as int].read_state == Some(st)
            &&& x.metadata.access_type == AccessType::Read ==> m2.accesses[a].written_state == Some(st)
            &&& m2.txs[t].pending_resources == k - 1
            &&& m2.batches[b].available_txs == if k == 1 {
                m.batches[b].available_txs.push(x.tx)
            } else {
                m.batches[b].available_txs
            }
        }),
{
    let x = m.accesses[a];
    let t = x.tx as int;
    let m1 = set_access(m, a, AccessView { read_state: Some(st), prev: None, ..x });
    let m2 = if x.is_batch_head {
        let d = x.state_diff as int;
        set_diff(m1, d, StateDiffView { read_state: Some(st), ..m1.state_diffs[d] })
    } else {
        m1
    };
    if x.metadata.access_type == AccessType::Read {
        let m3 = set_written_state(m2, a, st);
        let y = m2.accesses[a];
        assert(y.written_state is None && y.next is None);
        let m1w = set_access(m2, a, AccessView { written_state: Some(st), ..y });
        let m2w = if y.is_batch_tail {
            let d = y.state_diff as int;
            let m1b = set_diff(m1w, d, StateDiffView { written_state: Some(st), ..m1w.state_diffs[d] });
            submit_write(m1b, m1b.state_diffs[d].batch as int, WriteView::StateDiff(y.state_diff))
        } else {
            m1w
        };
        assert(m3 == m2w);
        assert(m3.txs == m.txs);
        assert(m3.batches[m.txs[t].batch as int].available_txs == m.batches[m.txs[t].batch as int].available_txs);
        assert(y.is_batch_head ==> m3.state_diffs[x.state_diff as int].read_state == Some(st));
    }
}

/// A batch that is processed, with no transaction and no write pending, is persisted.
pub open spec fn persisted_when_done(x: BatchView) -> bool {
    x.was_processed && x.pending_txs == 0 && x.pending_writes == 0 ==> x.was_persisted
}

/// Law: counting down the transactions or the writes of a batch keeps it persisted once it
/// is processed and nothing of it is pending, whichever finishes last; handing a write to
/// storage keeps that too while the pending writes are not negative.
pub proof fn lemma_done_batch_persisted(m: ManagerView, b: int, w: WriteView)
    requires
        0 <= b < m.batches.len(),
        persisted_when_done(m.batches[b]),
    ensures
        persisted_when_done(decrease_pending_txs(m, b).batches[b]),
        persisted_when_done(decrease_pending_writes(m, b).batches[b]),
        m.batches[b].pending_writes >= 0 ==> persisted_when_done(submit_write(m, b, w).batches[b]),
{
}

/// Law: a batch becomes persisted only when nothing of it is pending. Counting down its
/// transactions, or its writes, marks it persisted only when afterwards no transaction and
/// no write of it is pending. Counting down a positive number of transactions lowers it by
/// one and marks the batch processed exactly when none is left, and persisted too when then
/// no write is pending; counting down a positive number of writes lowers it by one and marks
/// the batch persisted exactly when neither a write nor a transaction is left.
pub proof fn lemma_persisted_only_when_done(m: ManagerView, b: int)
    requires
        0 <= b < m.batches.len(),
    ensures
        ({
            let x = m.batches[b];
            let y = decrease_pending_txs(m, b).batches[b];
            x.pending_txs >= 1 ==> {
                &&& y.pending_txs == x.pending_txs - 1
                &&& y.pending_writes == x.pending_writes
                &&& y.was_processed == (x.was_processed || y.pending_txs == 0)
                &&& y.was_persisted == (x.was_persisted || (y.pending_txs == 0 && y.pending_writes == 0))
            }
        }),
        ({
            let x = m.batches[b];
            let y = decrease_pending_writes(m, b).batches[b];
            x.pending_writes >= 1 ==> {
                &&& y.pending_writes == x.pending_writes - 1
                &&& y.pending_txs == x.pending_txs
                &&& y.was_processed == x.was_processed
                &&& y.was_persisted == (x.was_persisted || (y.pending_writes == 0 && y.pending_txs == 0))
            }
        }),
        ({
            let y = decrease_pending_txs(m, b).batches[b];
            y.was_persisted && !m.batches[b].was_persisted ==> y.pending_txs == 0 && y.pending_writes == 0
        }),
        ({
            let y = decrease_pending_writes(m, b).batches[b];
            y.was_persisted && !m.batches[b].was_persisted ==> y.pending_txs == 0 && y.pending_writes == 0
        }),
{
}

/// Law: serving a storage read for access `a`, which does not know its read state yet,
/// makes `a` read the state that the store names as latest for its resource (the state
/// `VersionedState::from_latest_data` reads), and leaves the store as it was.
pub proof fn lemma_process_read_reads_latest(m: ManagerView, a: usize)
    requires
        m.reads.len() > 0,
        m.reads[0] == ReadView::LatestData(a),
        a < m.accesses.len(),
        m.accesses[a as int].read_state is None,
    ensures
        process_read(m).accesses[a as int].read_state == Some(latest_state(m.store, m.accesses[a as int].metadata.id)),
        process_read(m).store == m.store,
{
    let st = latest_state(m.store, m.accesses[a as int].metadata.id);
    let m0 = ManagerView { reads: m.reads.drop_first(), ..m };
    let x = m0.accesses[a as int];
    let m1 = set_access(m0, a as int, AccessView { read_state: Some(st), prev: None, ..x });
    let m2 = if x.is_batch_head {
        let d = x.state_diff as int;
        set_diff(m1, d, StateDiffView { read_state: Some(st), ..m1.state_diffs[d] })
    } else {
        m1
    };
    assert(m2.accesses[a as int].read_state == Some(st));
    if x.metadata.access_type == AccessType::Read {
        lemma_published_states_stay(m2, a as int, st, false);
    }
    lemma_publish_keeps(m0, a as int, st, true);
}

/// Law: when the last batch the longest chain numbered lies beyond `target`, rolling back
/// hands storage exactly the rollback of the batches `target + 1 ..=` that last one;
/// otherwise nothing changes.
pub proof fn lemma_rollback_to_range(m: ManagerView, target: u64)
    ensures
        if last_scheduled(m) is Some && last_scheduled(m)->0 > target {
            rollback_to(m, target).writes == m.writes.push(
                WriteView::Rollback { lower_bound: (target + 1) as u64, upper_bound: last_scheduled(m)->0 },
            )
        } else {
            rollback_to(m, target) == m
        },
{
}

/// Law: the batch just scheduled is the last one the longest chain numbered (while its
/// counter has not reached the end of its range).
pub proof fn lemma_schedule_is_last_scheduled(m: ManagerView, txs: Seq<Seq<AccessMetadata>>)
    requires
        wf_view(m),
        m.chains[m.longest_chain as int].last_batch_index < u64::MAX,
    ensures
        last_scheduled(schedule(m, txs)) == Some(schedule(m, txs).batches[m.batches.len() as int].index),
{
    lemma_schedule_numbering(m, txs);
}

// ---------------------------------------------------------------------------------------
// Exec parts

/// One access of a resource by a transaction, linked to the accesses before and after it.
pub struct ResourceAccess {
    metadata: AccessMetadata,
    tx: usize,
    state_diff: usize,
    is_batch_head: bool,
    is_batch_tail: bool,
    read_state: Option<VersionedState>,
    written_state: Option<VersionedState>,
    prev: Option<usize>,
    next: Option<usize>,
}

impl View for ResourceAccess {
    type V = AccessView;

    closed spec fn view(&self) -> AccessView {
        AccessView {
            metadata: self.metadata,
            tx: self.tx,
            state_diff: self.state_diff,
            is_batch_head: self.is_batch_head,
            is_batch_tail: self.is_batch_tail,
            read_state: opt_view(self.read_state),
            written_state: opt_view(self.written_state),
            prev: self.prev,
            next: self.next,
        }
    }
}

impl ResourceAccess {
    pub fn metadata(&self) -> (r: &AccessMetadata)
        ensures
            *r == self@.metadata,
    {
        &self.metadata
    }

    /// The state this access reads.
    pub fn read_state(&self) -> (r: &VersionedState)
        requires
            self@.read_state is Some,
        ensures
            self@.read_state == Some(r@),
    {
        self.read_state.as_ref().unwrap()
    }

    /// The state this access leaves for the next one.
    pub fn written_state(&self) -> (r: &VersionedState)
        requires
            self@.written_state is Some,
        ensures
            self@.written_state == Some(r@),
    {
        self.written_state.as_ref().unwrap()
    }

    /// Whether this is the first access of its resource in its batch.
    pub fn is_batch_head(&self) -> (r: bool)
        ensures
            r == self@.is_batch_head,
    {
        self.is_batch_head
    }

    /// Whether this is the last access of its resource in its batch so far.
    pub fn is_batch_tail(&self) -> (r: bool)
        ensures
            r == self@.is_batch_tail,
    {
        self.is_batch_tail
    }
}


/// A scheduled transaction: the accesses it makes and how many of them still wait for
/// their read state.
pub struct RuntimeTx<T> {
    batch: usize,
    resources: Vec<usize>,
    pending_resources: u64,
    tx: Transaction<T>,
}

impl<T> View for RuntimeTx<T> {
    type V = TxView;

    closed spec fn view(&self) -> TxView {
        TxView { batch: self.batch, resources: self.resources@, pending_resources: self.pending_resources }
    }
}

impl<T> RuntimeTx<T> {
    /// The transaction this entry holds.
    pub closed spec fn transaction(&self) -> Transaction<T> {
        self.tx
    }

    /// The accesses of this transaction, in the order it declared them.
    pub fn accessed_resources(&self) -> (r: &Vec<usize>)
        ensures
            r@ == self@.resources,
    {
        &self.resources
    }

    /// The transaction itself.
    pub fn tx(&self) -> (r: &Transaction<T>)
        ensures
            *r == self.transaction(),
    {
        &self.tx
    }

    /// Whether this transaction is part of batch `b`.
    pub fn belongs_to_batch(&self, b: usize) -> (r: bool)
        ensures
            r == (self@.batch == b),
    {
        self.batch == b
    }
}

/// The state of one resource before and after one batch.
pub struct StateDiff {
    batch: usize,
    resource_id: u64,
    read_state: Option<VersionedState>,
    written_state: Option<VersionedState>,
}

impl View for StateDiff {
    type V = StateDiffView;

    closed spec fn view(&self) -> StateDiffView {
        StateDiffView {
            batch: self.batch,
            resource_id: self.resource_id,
            read_state: opt_view(self.read_state),
            written_state: opt_view(self.written_state),
        }
    }
}

impl StateDiff {
    pub fn resource_id(&self) -> (r: u64)
        ensures
            r == self@.resource_id,
    {
        self.resource_id
    }

    pub fn read_state(&self) -> (r: &VersionedState)
        requires
            self@.read_state is Some,
        ensures
            self@.read_state == Some(r@),
    {
        self.read_state.as_ref().unwrap()
    }

    pub fn written_state(&self) -> (r: &VersionedState)
        requires
            self@.written_state is Some,
        ensures
            self@.written_state == Some(r@),
    {
        self.written_state.as_ref().unwrap()
    }
}


/// What a transaction sees of one accessed resource while it executes.
pub struct AccessHandleView {
    pub state: VersionedStateView,
    pub access: usize,
    pub metadata: AccessMetadata,
}

/// A transaction's working copy of the state of one resource it accesses.
pub struct AccessHandle {
    state_version: VersionedState,
    access: usize,
    metadata: AccessMetadata,
}

impl View for AccessHandle {
    type V = AccessHandleView;

    closed spec fn view(&self) -> AccessHandleView {
        AccessHandleView { state: self.state_version@, access: self.access, metadata: self.metadata }
    }
}

impl AccessHandle {
    pub fn access_metadata(&self) -> (r: &AccessMetadata)
        ensures
            *r == self@.metadata,
    {
        &self.metadata
    }

    pub fn version(&self) -> (r: u64)
        ensures
            r == self@.state.version,
    {
        self.state_version.version()
    }

    pub fn data(&self) -> (r: &Vec<u8>)
        ensures
            r@ == self@.state.data,
    {
        self.state_version.data()
    }

    /// Mutable access to the data; every call starts a new version.
    pub fn data_mut(&mut self) -> (r: &mut Vec<u8>)
        requires
            old(self)@.state.version < u64::MAX,
        ensures
            r@ == old(self)@.state.data,
            final(self)@.state.version == old(self)@.state.version + 1,
            final(self)@.state.resource_id == old(self)@.state.resource_id,
            final(self)@.state.owner == old(self)@.state.owner,
            final(self)@.state.balance == old(self)@.state.balance,
            final(self)@.state.data == final(r)@,
            final(self)@.access == old(self)@.access,
            final(self)@.metadata == old(self)@.metadata,
    {
        self.state_version.data_mut()
    }

    /// The state: owner, data and balance.
    pub fn state(&self) -> (r: &State)
        ensures
            r.owner == self@.state.owner,
            r.data@ == self@.state.data,
            r.balance == self@.state.balance,
    {
        self.state_version.state()
    }

    /// Mutable access to the state; every call starts a new version.
    pub fn state_mut(&mut self) -> (r: &mut State)
        requires
            old(self)@.state.version < u64::MAX,
        ensures
            r.owner == old(self)@.state.owner,
            r.data@ == old(self)@.state.data,
            r.balance == old(self)@.state.balance,
            final(self)@.state.version == old(self)@.state.version + 1,
            final(self)@.state.resource_id == old(self)@.state.resource_id,
            final(self)@.state.owner == final(r).owner,
            final(self)@.state.data == final(r).data@,
            final(self)@.state.balance == final(r).balance,
            final(self)@.access == old(self)@.access,
            final(self)@.metadata == old(self)@.metadata,
    {
        self.state_version.state_mut()
    }

    /// Whether the resource did not exist before.
    pub fn is_new(&self) -> (r: bool)
        ensures
            r == (self@.state.version == 0),
    {
        self.state_version.version() == 0
    }
}

/// A batch of transactions and the progress of its processing.
pub struct RuntimeBatch {
    chain: usize,
    index: u64,
    txs: Vec<usize>,
    state_diffs: Vec<usize>,
    available_txs: Injector<usize>,
    pending_txs: u64,
    pending_writes: i64,
    was_processed: bool,
    was_persisted: bool,
    was_committed: bool,
}

impl View for RuntimeBatch {
    type V = BatchView;

    closed spec fn view(&self) -> BatchView {
        BatchView {
            chain: self.chain,
            index: self.index,
            txs: self.txs@,
            state_diffs: self.state_diffs@,
            available_txs: injector_contents(self.available_txs),
            pending_txs: self.pending_txs,
            pending_writes: self.pending_writes,
            was_processed: self.was_processed,
            was_persisted: self.was_persisted,
            was_committed: self.was_committed,
        }
    }
}

impl RuntimeBatch {
    pub fn index(&self) -> (r: u64)
        ensures
            r == self@.index,
    {
        self.index
    }

    pub fn txs(&self) -> (r: &Vec<usize>)
        ensures
            r@ == self@.txs,
    {
        &self.txs
    }

    pub fn state_diffs(&self) -> (r: &Vec<usize>)
        ensures
            r@ == self@.state_diffs,
    {
        &self.state_diffs
    }

    /// The number of transactions ready to execute and not yet taken.
    pub fn num_available(&self) -> (r: u64)
        ensures
            r == self@.available_txs.len(),
    {
        injector_len(&self.available_txs) as u64
    }

    /// The number of transactions not yet executed.
    pub fn num_pending(&self) -> (r: u64)
        ensures
            r == self@.pending_txs,
    {
        self.pending_txs
    }

    pub fn was_processed(&self) -> (r: bool)
        ensures
            r == self@.was_processed,
    {
        self.was_processed
    }

    pub fn was_persisted(&self) -> (r: bool)
        ensures
            r == self@.was_persisted,
    {
        self.was_persisted
    }

    pub fn was_committed(&self) -> (r: bool)
        ensures
            r == self@.was_committed,
    {
        self.was_committed
    }

    /// Whether `chain`, the chain of this batch, was rolled back below the batch's index.
    pub fn was_canceled(&self, chain: &Chain) -> (r: bool)
        ensures
            r == (self@.index > chain@.rollback_threshold),
    {
        self.index > chain.rollback_threshold()
    }

    /// Nothing is left to execute: no transaction pending and none available.
    pub fn is_depleted(&self) -> (r: bool)
        ensures
            r == (self@.pending_txs == 0 && self@.available_txs.len() == 0),
    {
        self.pending_txs == 0 && injector_is_empty(&self.available_txs)
    }
}

/// A command for the storage reader.
pub enum Read {
    LatestData(usize),
}

impl View for Read {
    type V = ReadView;

    open spec fn view(&self) -> ReadView {
        match self {
            Read::LatestData(a) => ReadView::LatestData(*a),
        }
    }
}

/// A command for the storage writer.
pub enum Write {
    StateDiff(usize),
    CommitBatch(usize),
    Rollback(Rollback),
}

impl View for Write {
    type V = WriteView;

    open spec fn view(&self) -> WriteView {
        match self {
            Write::StateDiff(d) => WriteView::StateDiff(*d),
            Write::CommitBatch(b) => WriteView::CommitBatch(*b),
            Write::Rollback(r) => WriteView::Rollback {
                lower_bound: r.lower_bound(),
                upper_bound: r.upper_bound(),
            },
        }
    }
}

/// The store with the queues of read and write commands that wait for it.
pub struct StorageManager {
    store: Store,
    reads: Vec<Read>,
    writes: Vec<Write>,
}

impl StorageManager {
    pub closed spec fn store_view(&self) -> StoreView {
        self.store@
    }

    pub closed spec fn wf(&self) -> bool {
        self.store.wf()
    }

    pub fn store(&self) -> (r: &Store)
        ensures
            r@ == self.store_view(),
            self.wf() ==> r.wf(),
    {
        &self.store
    }
}

/// The runtime: chains, resources, batches and their transactions, and storage.
pub struct RuntimeManager<T> {
    longest_chain: usize,
    chains: Vec<Chain>,
    storage_manager: StorageManager,
    resources: HashMap<u64, usize>,
    accesses: Vec<ResourceAccess>,
    txs: Vec<RuntimeTx<T>>,
    state_diffs: Vec<StateDiff>,
    batches: Vec<RuntimeBatch>,
}

impl<T> View for RuntimeManager<T> {
    type V = ManagerView;

    closed spec fn view(&self) -> ManagerView {
        ManagerView {
            chains: self.chains@.map_values(|c: Chain| c@),
            longest_chain: self.longest_chain,
            resources: self.resources@,
            accesses: self.accesses@.map_values(|x: ResourceAccess| x@),
            txs: self.txs@.map_values(|x: RuntimeTx<T>| x@),
            state_diffs: self.state_diffs@.map_values(|x: StateDiff| x@),
            batches: self.batches@.map_values(|x: RuntimeBatch| x@),
            store: self.storage_manager.store@,
            reads: self.storage_manager.reads@.map_values(|x: Read| x@),
            writes: self.storage_manager.writes@.map_values(|x: Write| x@),
        }
    }
}

/// Whether the chain of batch `b` has been rolled back below the batch's index.
pub open spec fn was_canceled(m: ManagerView, b: int) -> bool {
    m.batches[b].index > m.chains[m.batches[b].chain as int].rollback_threshold
}


// ---------------------------------------------------------------------------------------
// Transitions

pub open spec fn set_access(m: ManagerView, a: int, x: AccessView) -> ManagerView {
    if 0 <= a < m.accesses.len() {
        ManagerView { accesses: m.accesses.update(a, x), ..m }
    } else {
        m
    }
}

pub open spec fn set_tx(m: ManagerView, t: int, x: TxView) -> ManagerView {
    if 0 <= t < m.txs.len() {
        ManagerView { txs: m.txs.update(t, x), ..m }
    } else {
        m
    }
}

pub open spec fn set_diff(m: ManagerView, d: int, x: StateDiffView) -> ManagerView {
    if 0 <= d < m.state_diffs.len() {
        ManagerView { state_diffs: m.state_diffs.update(d, x), ..m }
    } else {
        m
    }
}

pub open spec fn set_batch(m: ManagerView, b: int, x: BatchView) -> ManagerView {
    if 0 <= b < m.batches.len() {
        ManagerView { batches: m.batches.update(b, x), ..m }
    } else {
        m
    }
}

/// `x - 1`, wrapping around at 0.
pub open spec fn wrapping_dec(x: u64) -> u64 {
    if x == 0 {
        u64::MAX
    } else {
        (x - 1) as u64
    }
}

/// `x + 1` on `i64`, wrapping around at the top.
pub open spec fn wrapping_inc_i64(x: i64) -> i64 {
    if x == i64::MAX {
        i64::MIN
    } else {
        (x + 1) as i64
    }
}

/// `x - 1` on `i64`, wrapping around at the bottom.
pub open spec fn wrapping_dec_i64(x: i64) -> i64 {
    if x == i64::MIN {
        i64::MAX
    } else {
        (x - 1) as i64
    }
}

/// Transaction `t` becomes available for execution in its batch.
pub open spec fn push_available_tx(m: ManagerView, t: int) -> ManagerView {
    let b = m.txs[t].batch as int;
    set_batch(m, b, BatchView { available_txs: m.batches[b].available_txs.push(t as usize), ..m.batches[b] })
}

/// One more access of transaction `t` knows its read state; with the last one the
/// transaction becomes available.
pub open spec fn decrease_pending_resources(m: ManagerView, t: int) -> ManagerView {
    let x = m.txs[t];
    let m1 = set_tx(m, t, TxView { pending_resources: wrapping_dec(x.pending_resources), ..x });
    if x.pending_resources == 1 {
        push_available_tx(m1, t)
    } else {
        m1
    }
}

/// Batch `b` hands a write to storage, unless it was canceled.
pub open spec fn submit_write(m: ManagerView, b: int, w: WriteView) -> ManagerView {
    if was_canceled(m, b) {
        m
    } else {
        let x = m.batches[b];
        ManagerView {
            writes: m.writes.push(w),
            ..set_batch(m, b, BatchView { pending_writes: wrapping_inc_i64(x.pending_writes), ..x })
        }
    }
}

/// Access `a` publishes the state it leaves. The last access of its batch records it in the
/// state diff, which goes to storage; the next access reads it.
pub open spec fn set_written_state(m: ManagerView, a: int, st: VersionedStateView) -> ManagerView
    decreases m.accesses.len() - a, 0int,
{
    if !(0 <= a < m.accesses.len()) {
        m
    } else {
        let x = m.accesses[a];
        if x.written_state is Some {
            m
        } else {
            let m1 = set_access(m, a, AccessView { written_state: Some(st), ..x });
            let m2 = if x.is_batch_tail {
                let d = x.state_diff as int;
                let m1b = set_diff(m1, d, StateDiffView { written_state: Some(st), ..m1.state_diffs[d] });
                submit_write(m1b, m1b.state_diffs[d].batch as int, WriteView::StateDiff(x.state_diff))
            } else {
                m1
            };
            match x.next {
                Some(n) => if a < n < m2.accesses.len() {
                    set_read_state(m2, n as int, st)
                } else {
                    m2
                },
                None => m2,
            }
        }
    }
}

/// Access `a` learns the state it reads. The first access of its batch records it in the
/// state diff; a read-only access passes it on as its written state; its transaction has
/// one access fewer to wait for.
pub open spec fn set_read_state(m: ManagerView, a: int, st: VersionedStateView) -> ManagerView
    decreases m.accesses.len() - a, 1int,
{
    if !(0 <= a < m.accesses.len()) {
        m
    } else {
        let x = m.accesses[a];
        if x.read_state is Some {
            m
        } else {
            let m1 = set_access(m, a, AccessView { read_state: Some(st), prev: None, ..x });
            let m2 = if x.is_batch_head {
                let d = x.state_diff as int;
                set_diff(m1, d, StateDiffView { read_state: Some(st), ..m1.state_diffs[d] })
            } else {
                m1
            };
            let m3 = if x.metadata.access_type == AccessType::Read {
                set_written_state(m2, a, st)
            } else {
                m2
            };
            decrease_pending_resources(m3, x.tx as int)
        }
    }
}



/// The access by transaction `t` described by `meta`: it is linked after the last access of
/// the resource; the first access of a resource in a batch opens a new state diff and
/// becomes its head, a later one shares the diff and takes over as its tail.
pub open spec fn add_access(m: ManagerView, t: int, meta: AccessMetadata) -> ManagerView {
    let b = m.txs[t].batch;
    let a = m.accesses.len();
    let last: Option<usize> = if m.resources.contains_key(meta.id) {
        Some(m.resources[meta.id])
    } else {
        None
    };
    let same_batch = match last {
        Some(p) => m.txs[m.accesses[p as int].tx as int].batch == b,
        None => false,
    };
    let sd: usize = if same_batch {
        m.accesses[last->0 as int].state_diff
    } else {
        m.state_diffs.len() as usize
    };
    let m1 = if same_batch {
        m
    } else {
        ManagerView {
            state_diffs: m.state_diffs.push(
                StateDiffView { batch: b, resource_id: meta.id, read_state: None, written_state: None },
            ),
            ..m
        }
    };
    let head = !same_batch;
    let m2 = if same_batch {
        set_access(m1, last->0 as int, AccessView { is_batch_tail: false, ..m1.accesses[last->0 as int] })
    } else {
        m1
    };
    let m3 = ManagerView {
        accesses: m2.accesses.push(
            AccessView {
                metadata: meta,
                tx: t as usize,
                state_diff: sd,
                is_batch_head: head,
                is_batch_tail: true,
                read_state: None,
                written_state: None,
                prev: last,
                next: None,
            },
        ),
        resources: m2.resources.insert(meta.id, a as usize),
        ..m2
    };
    let m4 = if head {
        set_batch(m3, b as int, BatchView { state_diffs: m3.batches[b as int].state_diffs.push(sd), ..m3.batches[b as int] })
    } else {
        m3
    };
    set_tx(m4, t, TxView { resources: m4.txs[t].resources.push(a as usize), ..m4.txs[t] })
}

/// The accesses `metas` of transaction `t`, in order.
pub open spec fn add_accesses(m: ManagerView, t: int, metas: Seq<AccessMetadata>) -> ManagerView
    decreases metas.len(),
{
    if metas.len() == 0 {
        m
    } else {
        add_access(add_accesses(m, t, metas.drop_last()), t, metas.last())
    }
}

/// A new transaction of batch `b` with accesses `metas`, waiting for all of them.
pub open spec fn add_tx(m: ManagerView, b: int, metas: Seq<AccessMetadata>) -> ManagerView {
    let t = m.txs.len() as int;
    let m1 = ManagerView {
        txs: m.txs.push(TxView { batch: b as usize, resources: Seq::empty(), pending_resources: 0 }),
        ..m
    };
    let m2 = add_accesses(m1, t, metas);
    let m3 = set_tx(m2, t, TxView { pending_resources: metas.len() as u64, ..m2.txs[t] });
    set_batch(m3, b, BatchView { txs: m3.batches[b].txs.push(t as usize), ..m3.batches[b] })
}

/// The transactions `txs` of batch `b`, in order.
pub open spec fn add_txs(m: ManagerView, b: int, txs: Seq<Seq<AccessMetadata>>) -> ManagerView
    decreases txs.len(),
{
    if txs.len() == 0 {
        m
    } else {
        add_tx(add_txs(m, b, txs.drop_last()), b, txs.last())
    }
}

/// Access `a` asks for its read state: from the access before it, which learns that `a`
/// follows and hands over its written state if it has one, or else from storage.
pub open spec fn connect(m: ManagerView, a: int) -> ManagerView {
    match m.accesses[a].prev {
        Some(p) => {
            let m1 = set_access(m, p as int, AccessView { next: Some(a as usize), ..m.accesses[p as int] });
            match m1.accesses[p as int].written_state {
                Some(w) => set_read_state(m1, a, w),
                None => m1,
            }
        },
        None => ManagerView { reads: m.reads.push(ReadView::LatestData(a as usize)), ..m },
    }
}

/// Accesses `lo..hi` connect, in order.
pub open spec fn connect_range(m: ManagerView, lo: int, hi: int) -> ManagerView
    decreases hi - lo,
{
    if hi <= lo {
        m
    } else {
        connect(connect_range(m, lo, hi - 1), hi - 1)
    }
}

/// A batch of transactions with accesses `txs` is numbered from the longest chain, built
/// and connected.
pub open spec fn schedule(m: ManagerView, txs: Seq<Seq<AccessMetadata>>) -> ManagerView {
    let c = m.longest_chain as int;
    let index = m.chains[c].last_batch_index;
    let m1 = ManagerView {
        chains: m.chains.update(c, ChainView { last_batch_index: crate::chain::wrapping_inc(index), ..m.chains[c] }),
        ..m
    };
    let b = m1.batches.len();
    let m2 = ManagerView {
        batches: m1.batches.push(
            BatchView {
                chain: m.longest_chain,
                index,
                txs: Seq::empty(),
                state_diffs: Seq::empty(),
                available_txs: Seq::empty(),
                pending_txs: txs.len() as u64,
                pending_writes: 0,
                was_processed: false,
                was_persisted: false,
                was_committed: false,
            },
        ),
        ..m1
    };
    let m3 = add_txs(m2, b as int, txs);
    connect_range(m3, m.accesses.len() as int, m3.accesses.len() as int)
}


/// Every access of transaction `t` knows its read state.
pub open spec fn tx_ready(m: ManagerView, t: int) -> bool {
    forall|i: int|
        0 <= i < m.txs[t].resources.len() ==> (#[trigger] m.accesses[m.txs[t].resources[i] as int]).read_state is Some
}

/// The handles that transaction `t` starts from: the read state of each of its accesses.
pub open spec fn handles_of(m: ManagerView, t: int) -> Seq<AccessHandleView> {
    m.txs[t].resources.map_values(
        |a: usize|
            AccessHandleView {
                state: m.accesses[a as int].read_state->0,
                access: a,
                metadata: m.accesses[a as int].metadata,
            },
    )
}

/// After execution a writing access publishes the handle's state if the transaction
/// succeeded, or its unchanged read state if it failed; a reading access has nothing to do.
pub open spec fn finish_handle(m: ManagerView, h: AccessHandleView, ok: bool) -> ManagerView {
    let a = h.access as int;
    if m.accesses[a].metadata.access_type == AccessType::Write {
        if ok {
            set_written_state(m, a, h.state)
        } else {
            set_written_state(m, a, m.accesses[a].read_state->0)
        }
    } else {
        m
    }
}

pub open spec fn finish_handles(m: ManagerView, hs: Seq<AccessHandleView>, ok: bool) -> ManagerView
    decreases hs.len(),
{
    if hs.len() == 0 {
        m
    } else {
        finish_handle(finish_handles(m, hs.drop_last(), ok), hs.last(), ok)
    }
}

/// One transaction of batch `b` fewer to execute; with the last one the batch is processed,
/// and persisted too if no write of it is pending.
pub open spec fn decrease_pending_txs(m: ManagerView, b: int) -> ManagerView {
    let x = m.batches[b];
    set_batch(
        m,
        b,
        BatchView {
            pending_txs: wrapping_dec(x.pending_txs),
            was_processed: x.was_processed || x.pending_txs == 1,
            was_persisted: x.was_persisted || (x.pending_txs == 1 && x.pending_writes == 0),
            ..x
        },
    )
}

/// Transaction `t` executed with handles `hs`, successfully or not.
pub open spec fn execute(m: ManagerView, t: int, hs: Seq<AccessHandleView>, ok: bool) -> ManagerView {
    decrease_pending_txs(finish_handles(m, hs, ok), m.txs[t].batch as int)
}

/// Publishing states never changes a state that was already published.
pub proof fn lemma_published_states_stay(m: ManagerView, a: int, st: VersionedStateView, read: bool)
    ensures
        ({
            let m2 = if read {
                set_read_state(m, a, st)
            } else {
                set_written_state(m, a, st)
            };
            &&& m2.accesses.len() == m.accesses.len()
            &&& forall|x: int|
                0 <= x < m.accesses.len() && (#[trigger] m.accesses[x]).read_state is Some ==> m2.accesses[x].read_state
                    == m.accesses[x].read_state
            &&& forall|x: int|
                0 <= x < m.accesses.len() && (#[trigger] m.accesses[x]).written_state is Some
                    ==> m2.accesses[x].written_state == m.accesses[x].written_state
        }),
    decreases m.accesses.len() - a, if read { 1int } else { 0int },
{
    if !(0 <= a < m.accesses.len()) {
        return;
    }
    let x = m.accesses[a];
    if read {
        if x.read_state is None {
            let m1 = set_access(m, a, AccessView { read_state: Some(st), prev: None, ..x });
            let m2 = if x.is_batch_head {
                let d = x.state_diff as int;
                set_diff(m1, d, StateDiffView { read_state: Some(st), ..m1.state_diffs[d] })
            } else {
                m1
            };
            assert(m2.accesses == m1.accesses);
            let m3 = if x.metadata.access_type == AccessType::Read {
                set_written_state(m2, a, st)
            } else {
                m2
            };
            if x.metadata.access_type == AccessType::Read {
                lemma_published_states_stay(m2, a, st, false);
            }
            let m4 = decrease_pending_resources(m3, x.tx as int);
            assert(m4.accesses == m3.accesses);
            assert(set_read_state(m, a, st) == m4);
            assert forall|y: int| 0 <= y < m.accesses.len() && (#[trigger] m.accesses[y]).read_state is Some implies m4.accesses[y].read_state
                == m.accesses[y].read_state by {
                assert(m2.accesses[y].read_state == m.accesses[y].read_state);
            }
            assert forall|y: int| 0 <= y < m.accesses.len() && (#[trigger] m.accesses[y]).written_state is Some implies m4.accesses[y].written_state
                == m.accesses[y].written_state by {
                assert(m2.accesses[y].written_state == m.accesses[y].written_state);
            }
        }
    } else {
        if x.written_state is None {
            let m1 = set_access(m, a, AccessView { written_state: Some(st), ..x });
            let m2 = if x.is_batch_tail {
                let d = x.state_diff as int;
                let m1b = set_diff(m1, d, StateDiffView { written_state: Some(st), ..m1.state_diffs[d] });
                submit_write(m1b, m1b.state_diffs[d].batch as int, WriteView::StateDiff(x.state_diff))
            } else {
                m1
            };
            assert(m2.accesses == m1.accesses);
            let m3 = match x.next {
                Some(n) => if a < n < m2.accesses.len() {
                    set_read_state(m2, n as int, st)
                } else {
                    m2
                },
                None => m2,
            };
            if let Some(n) = x.next {
                if a < n < m2.accesses.len() {
                    lemma_published_states_stay(m2, n as int, st, true);
                }
            }
            assert(set_written_state(m, a, st) == m3);
            assert forall|y: int| 0 <= y < m.accesses.len() && (#[trigger] m.accesses[y]).read_state is Some implies m3.accesses[y].read_state
                == m.accesses[y].read_state by {
                assert(m2.accesses[y].read_state == m.accesses[y].read_state);
            }
            assert forall|y: int| 0 <= y < m.accesses.len() && (#[trigger] m.accesses[y]).written_state is Some implies m3.accesses[y].written_state
                == m.accesses[y].written_state by {
                assert(m2.accesses[y].written_state == m.accesses[y].written_state);
            }
        }
    }
}


/// The store of `m` replaced by `s`.
pub open spec fn with_store(m: ManagerView, s: StoreView) -> ManagerView {
    ManagerView { store: s, ..m }
}

/// The first storage read of `m` can be served without a missing version.
pub open spec fn read_ready(m: ManagerView) -> bool {
    m.reads.len() > 0 ==> match m.reads[0] {
        ReadView::LatestData(a) => latest_readable(m.store, m.accesses[a as int].metadata.id),
    }
}

/// Serving the first storage read: the access learns the latest stored state of its resource.
pub open spec fn process_read(m: ManagerView) -> ManagerView {
    match m.reads[0] {
        ReadView::LatestData(a) => set_read_state(
            ManagerView { reads: m.reads.drop_first(), ..m },
            a as int,
            latest_state(m.store, m.accesses[a as int].metadata.id),
        ),
    }
}

/// The writes of state diff `d`: the written state's data and the read state's version as
/// rollback pointer of the batch.
pub open spec fn state_diff_ops(m: ManagerView, d: int) -> Seq<WriteOpView> {
    let x = m.state_diffs[d];
    seq![data_write(x.written_state->0), rollback_ptr_write(x.read_state->0, m.batches[x.batch as int].index)]
}

/// The writes that commit batch `b`: each state diff's written state becomes latest, unless
/// the batch was canceled.
pub open spec fn commit_ops(m: ManagerView, b: int) -> Seq<WriteOpView> {
    if was_canceled(m, b) {
        Seq::empty()
    } else {
        m.batches[b].state_diffs.map_values(|d: usize| latest_ptr_write(m.state_diffs[d as int].written_state->0))
    }
}

/// The first storage write of `m` has the states it needs.
pub open spec fn write_ready(m: ManagerView) -> bool {
    m.writes.len() > 0 ==> match m.writes[0] {
        WriteView::StateDiff(d) => m.state_diffs[d as int].read_state is Some
            && m.state_diffs[d as int].written_state is Some
            && m.state_diffs[d as int].written_state->0.data.len() <= u32::MAX,
        WriteView::CommitBatch(b) => !was_canceled(m, b as int) ==> forall|i: int|
            0 <= i < m.batches[b as int].state_diffs.len() ==> (#[trigger] m.state_diffs[m.batches[b as int].state_diffs[i] as int]).written_state is Some,
        WriteView::Rollback { .. } => rollback_layout(m.store),
    }
}

/// One write of batch `b` fewer pending; when it was the last and no transaction is pending,
/// the batch is persisted.
pub open spec fn decrease_pending_writes(m: ManagerView, b: int) -> ManagerView {
    let x = m.batches[b];
    set_batch(
        m,
        b,
        BatchView {
            pending_writes: wrapping_dec_i64(x.pending_writes),
            was_persisted: x.was_persisted || (x.pending_writes == 1 && x.pending_txs == 0),
            ..x
        },
    )
}

/// `m` without its first storage write.
pub open spec fn pop_write(m: ManagerView) -> ManagerView {
    ManagerView { writes: m.writes.drop_first(), ..m }
}

/// A commit of batch `b` goes to storage, unless the batch was canceled.
pub open spec fn schedule_commit(m: ManagerView, b: int) -> ManagerView {
    if was_canceled(m, b) {
        m
    } else {
        ManagerView { writes: m.writes.push(WriteView::CommitBatch(b as usize)), ..m }
    }
}

/// The index of the last batch the longest chain numbered, if it numbered any: one below
/// its counter.
pub open spec fn last_scheduled(m: ManagerView) -> Option<u64> {
    let next = m.chains[m.longest_chain as int].last_batch_index;
    if next > 0 {
        Some((next - 1) as u64)
    } else {
        None
    }
}

/// Rolling back to `target`: if the last batch of the longest chain is beyond it, that chain
/// is cut at `target`, a new chain numbers from `target` (as `Chain::rollback` gives it),
/// storage rolls back batches `target + 1 ..= last`, and the scheduler forgets the last access
/// of every resource.
pub open spec fn rollback_to(m: ManagerView, target: u64) -> ManagerView {
    let c = m.longest_chain as int;
    if last_scheduled(m) is Some && last_scheduled(m)->0 > target {
        let upper = last_scheduled(m)->0;
        ManagerView {
            chains: m.chains.update(c, ChainView { rollback_threshold: target, ..m.chains[c] }).push(
                ChainView { last_batch_index: target, rollback_threshold: u64::MAX },
            ),
            longest_chain: m.chains.len() as usize,
            writes: m.writes.push(WriteView::Rollback { lower_bound: (target + 1) as u64, upper_bound: upper }),
            resources: Map::empty(),
            ..m
        }
    } else {
        m
    }
}

/// The arenas of `m2` have the sizes of those of `m1`.
pub open spec fn same_sizes(m1: ManagerView, m2: ManagerView) -> bool {
    &&& m1.accesses.len() == m2.accesses.len()
    &&& m1.txs.len() == m2.txs.len()
    &&& m1.state_diffs.len() == m2.state_diffs.len()
    &&& m1.batches.len() == m2.batches.len()
    &&& m1.chains.len() == m2.chains.len()
}

proof fn lemma_wf_set_tx(m: ManagerView, t: int, x: TxView)
    requires
        wf_view(m),
        0 <= t < m.txs.len(),
        x.batch < m.batches.len(),
        forall|i: int| 0 <= i < x.resources.len() ==> x.resources[i] < m.accesses.len(),
    ensures
        wf_view(set_tx(m, t, x)),
{
    let m2 = set_tx(m, t, x);
    assert forall|t2: int| 0 <= t2 < m2.txs.len() implies {
        let y = #[trigger] m2.txs[t2];
        &&& y.batch < m2.batches.len()
        &&& forall|i: int| 0 <= i < y.resources.len() ==> y.resources[i] < m2.accesses.len()
    } by {
        if t2 != t {
            assert(m2.txs[t2] == m.txs[t2]);
        }
    }
}

proof fn lemma_wf_set_batch(m: ManagerView, b: int, x: BatchView)
    requires
        wf_view(m),
        0 <= b < m.batches.len(),
        x.chain < m.chains.len(),
        forall|i: int| 0 <= i < x.txs.len() ==> x.txs[i] < m.txs.len(),
        forall|i: int| 0 <= i < x.state_diffs.len() ==> x.state_diffs[i] < m.state_diffs.len(),
        forall|i: int| 0 <= i < x.available_txs.len() ==> x.available_txs[i] < m.txs.len(),
    ensures
        wf_view(set_batch(m, b, x)),
{
    let m2 = set_batch(m, b, x);
    assert forall|b2: int| 0 <= b2 < m2.batches.len() implies {
        let y = #[trigger] m2.batches[b2];
        &&& y.chain < m2.chains.len()
        &&& forall|i: int| 0 <= i < y.txs.len() ==> y.txs[i] < m2.txs.len()
        &&& forall|i: int| 0 <= i < y.state_diffs.len() ==> y.state_diffs[i] < m2.state_diffs.len()
        &&& forall|i: int| 0 <= i < y.available_txs.len() ==> y.available_txs[i] < m2.txs.len()
    } by {
        if b2 != b {
            assert(m2.batches[b2] == m.batches[b2]);
        }
    }
}

proof fn lemma_wf_set_access(m: ManagerView, a: int, x: AccessView)
    requires
        wf_view(m),
        0 <= a < m.accesses.len(),
        x.tx < m.txs.len(),
        x.state_diff < m.state_diffs.len(),
        x.prev matches Some(p) ==> p < a,
        x.next matches Some(n) ==> a < n < m.accesses.len(),
    ensures
        wf_view(set_access(m, a, x)),
{
    let m2 = set_access(m, a, x);
    assert forall|a2: int| 0 <= a2 < m2.accesses.len() implies {
        let y = #[trigger] m2.accesses[a2];
        &&& y.tx < m2.txs.len()
        &&& y.state_diff < m2.state_diffs.len()
        &&& (y.prev matches Some(p) ==> p < a2)
        &&& (y.next matches Some(n) ==> a2 < n < m2.accesses.len())
    } by {
        if a2 != a {
            assert(m2.accesses[a2] == m.accesses[a2]);
        }
    }
}

proof fn lemma_wf_set_diff(m: ManagerView, d: int, x: StateDiffView)
    requires
        wf_view(m),
        0 <= d < m.state_diffs.len(),
        x.batch < m.batches.len(),
    ensures
        wf_view(set_diff(m, d, x)),
{
    let m2 = set_diff(m, d, x);
    assert forall|d2: int| 0 <= d2 < m2.state_diffs.len() implies (#[trigger] m2.state_diffs[d2]).batch
        < m2.batches.len() by {
        if d2 != d {
            assert(m2.state_diffs[d2] == m.state_diffs[d2]);
        }
    }
}

proof fn lemma_wf_push_write(m: ManagerView, w: WriteView)
    requires
        wf_view(m),
        match w {
            WriteView::StateDiff(d) => d < m.state_diffs.len(),
            WriteView::CommitBatch(b) => b < m.batches.len(),
            WriteView::Rollback { .. } => true,
        },
    ensures
        wf_view(ManagerView { writes: m.writes.push(w), ..m }),
{
    let m2 = ManagerView { writes: m.writes.push(w), ..m };
    assert forall|i: int| 0 <= i < m2.writes.len() implies match #[trigger] m2.writes[i] {
        WriteView::StateDiff(d) => d < m2.state_diffs.len(),
        WriteView::CommitBatch(b) => b < m2.batches.len(),
        WriteView::Rollback { .. } => true,
    } by {
        if i < m.writes.len() {
            assert(m2.writes[i] == m.writes[i]);
        }
    }
}

impl<T> RuntimeManager<T> {
    /// The scheduled transactions, in order.
    pub closed spec fn payloads(&self) -> Seq<Transaction<T>> {
        self.txs@.map_values(|x: RuntimeTx<T>| x.tx)
    }

    pub closed spec fn wf(&self) -> bool {
        &&& wf_view(self@)
        &&& self.storage_manager.store.wf()
    }

    /// A well-formed runtime has a well-formed view, so the laws over views apply to it; its
    /// lists fit in `usize`.
    pub proof fn lemma_wf_view(&self)
        requires
            self.wf(),
        ensures
            wf_view(self@),
            self@.chains.len() <= usize::MAX,
            self@.accesses.len() <= usize::MAX,
            self@.txs.len() <= usize::MAX,
            self@.state_diffs.len() <= usize::MAX,
            self@.batches.len() <= usize::MAX,
    {
        vstd::std_specs::vec::axiom_spec_len(&self.chains);
        vstd::std_specs::vec::axiom_spec_len(&self.accesses);
        vstd::std_specs::vec::axiom_spec_len(&self.txs);
        vstd::std_specs::vec::axiom_spec_len(&self.state_diffs);
        vstd::std_specs::vec::axiom_spec_len(&self.batches);
    }


    fn push_available_tx(&mut self, t: usize)
        requires
            old(self).wf(),
            t < old(self)@.txs.len(),
        ensures
            final(self).wf(),
            final(self).payloads() == old(self).payloads(),
            final(self)@ == push_available_tx(old(self)@, t as int),
            same_sizes(old(self)@, final(self)@),
    {
        let ghost m = self@;
        let b = self.txs[t].batch;
        assert(m.txs[t as int].batch < m.batches.len());
        injector_push(&mut self.batches[b].available_txs, t);
        let ghost x = m.batches[b as int];
        assert(self@.batches =~= m.batches.update(
            b as int,
            BatchView { available_txs: x.available_txs.push(t), ..x },
        ));
        assert(self@ =~= push_available_tx(m, t as int));
        proof {
            lemma_wf_set_batch(m, b as int, BatchView { available_txs: x.available_txs.push(t), ..x });
        }
    }

    fn decrease_pending_resources(&mut self, t: usize)
        requires
            old(self).wf(),
            t < old(self)@.txs.len(),
        ensures
            final(self).wf(),
            final(self).payloads() == old(self).payloads(),
            final(self)@ == decrease_pending_resources(old(self)@, t as int),
            same_sizes(old(self)@, final(self)@),
    {
        let ghost m = self@;
        let p = self.txs[t].pending_resources;
        self.txs[t].pending_resources = if p == 0 {
            u64::MAX
        } else {
            p - 1
        };
        let ghost x = m.txs[t as int];
        assert(self@.txs =~= m.txs.update(t as int, TxView { pending_resources: wrapping_dec(p), ..x }));
        proof {
            lemma_wf_set_tx(m, t as int, TxView { pending_resources: wrapping_dec(p), ..x });
        }
        if p == 1 {
            self.push_available_tx(t);
        }
    }

    fn submit_write(&mut self, b: usize, w: Write)
        requires
            old(self).wf(),
            b < old(self)@.batches.len(),
            match w@ {
                WriteView::StateDiff(d) => d < old(self)@.state_diffs.len(),
                WriteView::CommitBatch(b) => b < old(self)@.batches.len(),
                WriteView::Rollback { .. } => true,
            },
        ensures
            final(self).wf(),
            final(self).payloads() == old(self).payloads(),
            final(self)@ == submit_write(old(self)@, b as int, w@),
            same_sizes(old(self)@, final(self)@),
    {
        let ghost m = self@;
        if !self.was_canceled(b) {
            let p = self.batches[b].pending_writes;
            self.batches[b].pending_writes = if p == i64::MAX {
                i64::MIN
            } else {
                p + 1
            };
            self.storage_manager.writes.push(w);
            let ghost x = m.batches[b as int];
            assert(self@.batches =~= m.batches.update(
                b as int,
                BatchView { pending_writes: wrapping_inc_i64(p), ..x },
            ));
            assert(self@.writes =~= m.writes.push(w@));
            proof {
                let mb = set_batch(m, b as int, BatchView { pending_writes: wrapping_inc_i64(p), ..x });
                lemma_wf_set_batch(m, b as int, BatchView { pending_writes: wrapping_inc_i64(p), ..x });
                lemma_wf_push_write(mb, w@);
            }
        }
    }

    fn set_written_state(&mut self, a: usize, st: VersionedState)
        requires
            old(self).wf(),
            a < old(self)@.accesses.len(),
        ensures
            final(self).wf(),
            final(self).payloads() == old(self).payloads(),
            final(self)@ == set_written_state(old(self)@, a as int, st@),
            same_sizes(old(self)@, final(self)@),
        decreases old(self)@.accesses.len() - a, 0int,
    {
        let ghost m = self@;
        if self.accesses[a].written_state.is_some() {
            return;
        }
        let ghost x = m.accesses[a as int];
        let d = self.accesses[a].state_diff;
        let tail = self.accesses[a].is_batch_tail;
        let next = self.accesses[a].next;
        self.accesses[a].written_state = Some(st.duplicate());
        let ghost m1 = set_access(m, a as int, AccessView { written_state: Some(st@), ..x });
        assert(self@.accesses =~= m1.accesses);
        assert(self@ =~= m1);
        proof {
            lemma_wf_set_access(m, a as int, AccessView { written_state: Some(st@), ..x });
        }
        if tail {
            self.state_diffs[d].written_state = Some(st.duplicate());
            let ghost m1b = set_diff(m1, d as int, StateDiffView { written_state: Some(st@), ..m1.state_diffs[d as int] });
            assert(self@.state_diffs =~= m1b.state_diffs);
            assert(self@ =~= m1b);
            proof {
                lemma_wf_set_diff(m1, d as int, StateDiffView { written_state: Some(st@), ..m1.state_diffs[d as int] });
            }
            let b = self.state_diffs[d].batch;
            self.submit_write(b, Write::StateDiff(d));
        }
        match next {
            Some(n) => {
                if a < n && n < self.accesses.len() {
                    self.set_read_state(n, st);
                }
            },
            None => {},
        }
    }

    fn set_read_state(&mut self, a: usize, st: VersionedState)
        requires
            old(self).wf(),
            a < old(self)@.accesses.len(),
        ensures
            final(self).wf(),
            final(self).payloads() == old(self).payloads(),
            final(self)@ == set_read_state(old(self)@, a as int, st@),
            same_sizes(old(self)@, final(self)@),
        decreases old(self)@.accesses.len() - a, 1int,
    {
        let ghost m = self@;
        if self.accesses[a].read_state.is_some() {
            return;
        }
        let ghost x = m.accesses[a as int];
        let d = self.accesses[a].state_diff;
        let head = self.accesses[a].is_batch_head;
        let t = self.accesses[a].tx;
        let access_type = self.accesses[a].metadata.access_type;
        self.accesses[a].read_state = Some(st.duplicate());
        self.accesses[a].prev = None;
        let ghost m1 = set_access(m, a as int, AccessView { read_state: Some(st@), prev: None, ..x });
        assert(self@.accesses =~= m1.accesses);
        assert(self@ =~= m1);
        proof {
            lemma_wf_set_access(m, a as int, AccessView { read_state: Some(st@), prev: None, ..x });
        }
        if head {
            self.state_diffs[d].read_state = Some(st.duplicate());
            let ghost m2 = set_diff(m1, d as int, StateDiffView { read_state: Some(st@), ..m1.state_diffs[d as int] });
            assert(self@.state_diffs =~= m2.state_diffs);
            assert(self@ =~= m2);
            proof {
                lemma_wf_set_diff(m1, d as int, StateDiffView { read_state: Some(st@), ..m1.state_diffs[d as int] });
            }
        }
        if access_type == AccessType::Read {
            self.set_written_state(a, st);
        }
        self.decrease_pending_resources(t);
    }


    fn add_access(&mut self, t: usize, meta: AccessMetadata)
        requires
            old(self).wf(),
            t < old(self)@.txs.len(),
        ensures
            final(self).wf(),
            final(self).payloads() == old(self).payloads(),
            final(self)@ == add_access(old(self)@, t as int, meta),
            final(self)@.accesses.len() == old(self)@.accesses.len() + 1,
            final(self)@.txs.len() == old(self)@.txs.len(),
            final(self)@.batches.len() == old(self)@.batches.len(),
            final(self)@.chains.len() == old(self)@.chains.len(),
            final(self)@.state_diffs.len() >= old(self)@.state_diffs.len(),
    {
        let ghost m = self@;
        let id = meta.id;
        let a = self.accesses.len();
        let b = self.txs[t].batch;
        assert(m.txs[t as int].batch < m.batches.len());
        let last: Option<usize> = match self.resources.get(&id) {
            Some(p) => Some(*p),
            None => None,
        };
        let same_batch = match last {
            Some(p) => {
                assert(m.accesses[p as int].tx < m.txs.len());
                let pt = self.accesses[p].tx;
                self.txs[pt].belongs_to_batch(b)
            },
            None => false,
        };
        let sd = if same_batch {
            self.accesses[last.unwrap()].state_diff
        } else {
            let d = self.state_diffs.len();
            self.state_diffs.push(
                StateDiff { batch: b, resource_id: id, read_state: None, written_state: None },
            );
            d
        };
        let ghost m1 = if same_batch {
            m
        } else {
            ManagerView {
                state_diffs: m.state_diffs.push(
                    StateDiffView { batch: b, resource_id: meta.id, read_state: None, written_state: None },
                ),
                ..m
            }
        };
        assert(self@.state_diffs =~= m1.state_diffs);
        assert(self@ =~= m1);
        assert(wf_view(m1)) by {
            if !same_batch {
                assert forall|d2: int| 0 <= d2 < m1.state_diffs.len() implies (#[trigger] m1.state_diffs[d2]).batch
                    < m1.batches.len() by {
                    if d2 < m.state_diffs.len() {
                        assert(m1.state_diffs[d2] == m.state_diffs[d2]);
                    }
                }
                assert forall|a2: int| 0 <= a2 < m1.accesses.len() implies (#[trigger] m1.accesses[a2]).state_diff
                    < m1.state_diffs.len() by {
                    assert(m.accesses[a2].state_diff < m.state_diffs.len());
                }
                assert forall|b2: int| 0 <= b2 < m1.batches.len() implies forall|i: int|
                    0 <= i < (#[trigger] m1.batches[b2]).state_diffs.len() ==> m1.batches[b2].state_diffs[i]
                        < m1.state_diffs.len() by {
                    assert(m.batches[b2] == m1.batches[b2]);
                }
            }
        };
        let head = match last {
            Some(p) => {
                if self.accesses[p].state_diff == sd {
                    self.accesses[p].is_batch_tail = false;
                    false
                } else {
                    true
                }
            },
            None => true,
        };
        let ghost m2 = if same_batch {
            set_access(m1, last->0 as int, AccessView { is_batch_tail: false, ..m1.accesses[last->0 as int] })
        } else {
            m1
        };
        proof {
            if let Some(p) = last {
                assert(m.accesses[p as int].state_diff < m.state_diffs.len());
                if same_batch {
                    lemma_wf_set_access(m1, p as int, AccessView { is_batch_tail: false, ..m1.accesses[p as int] });
                }
            }
            assert(head == !same_batch);
            assert(self@.accesses =~= m2.accesses);
            assert(self@ =~= m2);
        }
        self.accesses.push(
            ResourceAccess {
                metadata: meta,
                tx: t,
                state_diff: sd,
                is_batch_head: head,
                is_batch_tail: true,
                read_state: None,
                written_state: None,
                prev: last,
                next: None,
            },
        );
        self.resources.insert(id, a);
        let ghost m3 = ManagerView {
            accesses: m2.accesses.push(
                AccessView {
                    metadata: meta,
                    tx: t,
                    state_diff: sd,
                    is_batch_head: head,
                    is_batch_tail: true,
                    read_state: None,
                    written_state: None,
                    prev: last,
                    next: None,
                },
            ),
            resources: m2.resources.insert(meta.id, a),
            ..m2
        };
        assert(self@.accesses =~= m3.accesses);
        assert(self@ =~= m3);
        assert(wf_view(m3)) by {
            assert forall|a2: int| 0 <= a2 < m3.accesses.len() implies {
                let y = #[trigger] m3.accesses[a2];
                &&& y.tx < m3.txs.len()
                &&& y.state_diff < m3.state_diffs.len()
                &&& (y.prev matches Some(p) ==> p < a2)
                &&& (y.next matches Some(n) ==> a2 < n < m3.accesses.len())
            } by {
                if a2 < m2.accesses.len() {
                    assert(m3.accesses[a2] == m2.accesses[a2]);
                }
            }
            assert forall|i: int| 0 <= i < m3.txs.len() implies forall|j: int|
                0 <= j < (#[trigger] m3.txs[i]).resources.len() ==> m3.txs[i].resources[j] < m3.accesses.len() by {
                assert(m2.txs[i] == m3.txs[i]);
            }
            assert forall|i: int| 0 <= i < m3.reads.len() implies (#[trigger] m3.reads[i] matches ReadView::LatestData(x)
                ==> x < m3.accesses.len()) by {
                assert(m2.reads[i] == m3.reads[i]);
            }
        };
        if head {
            self.batches[b].state_diffs.push(sd);
            proof {
                let x = m3.batches[b as int];
                assert(self@.batches =~= m3.batches.update(b as int, BatchView { state_diffs: x.state_diffs.push(sd), ..x }));
                lemma_wf_set_batch(m3, b as int, BatchView { state_diffs: x.state_diffs.push(sd), ..x });
            }
        }
        let ghost m4 = if head {
            set_batch(m3, b as int, BatchView { state_diffs: m3.batches[b as int].state_diffs.push(sd), ..m3.batches[b as int] })
        } else {
            m3
        };
        assert(self@ =~= m4);
        self.txs[t].resources.push(a);
        proof {
            let x = m4.txs[t as int];
            assert(self@.txs =~= m4.txs.update(t as int, TxView { resources: x.resources.push(a), ..x }));
            lemma_wf_set_tx(m4, t as int, TxView { resources: x.resources.push(a), ..x });
            assert(self@ =~= add_access(m, t as int, meta));
        }
    }


    fn connect(&mut self, a: usize)
        requires
            old(self).wf(),
            a < old(self)@.accesses.len(),
        ensures
            final(self).wf(),
            final(self).payloads() == old(self).payloads(),
            final(self)@ == connect(old(self)@, a as int),
            same_sizes(old(self)@, final(self)@),
    {
        let ghost m = self@;
        assert(m.accesses[a as int].prev matches Some(pp) ==> pp < a);
        match self.accesses[a].prev {
            Some(p) => {
                self.accesses[p].next = Some(a);
                let ghost m1 = set_access(m, p as int, AccessView { next: Some(a), ..m.accesses[p as int] });
                proof {
                    assert(self@.accesses =~= m1.accesses);
                    assert(self@ =~= m1);
                    lemma_wf_set_access(m, p as int, AccessView { next: Some(a), ..m.accesses[p as int] });
                }
                match &self.accesses[p].written_state {
                    Some(w) => {
                        let w2 = w.duplicate();
                        self.set_read_state(a, w2);
                    },
                    None => {},
                }
            },
            None => {
                self.storage_manager.reads.push(Read::LatestData(a));
                proof {
                    let m1 = ManagerView { reads: m.reads.push(ReadView::LatestData(a)), ..m };
                    assert(self@.reads =~= m1.reads);
                    assert(self@ =~= m1);
                    assert forall|i: int| 0 <= i < m1.reads.len() implies (#[trigger] m1.reads[i] matches ReadView::LatestData(x)
                        ==> x < m1.accesses.len()) by {
                        if i < m.reads.len() {
                            assert(m.reads[i] == m1.reads[i]);
                        }
                    }
                }
            },
        }
    }

    fn add_tx(&mut self, b: usize, tx: Transaction<T>)
        requires
            old(self).wf(),
            b < old(self)@.batches.len(),
        ensures
            final(self).wf(),
            final(self)@ == add_tx(old(self)@, b as int, tx.accessed()),
            final(self).payloads() == old(self).payloads().push(tx),
            final(self)@.accesses.len() == old(self)@.accesses.len() + tx.accessed().len(),
            final(self)@.txs.len() == old(self)@.txs.len() + 1,
            final(self)@.batches.len() == old(self)@.batches.len(),
            final(self)@.chains.len() == old(self)@.chains.len(),
    {
        let ghost m = self@;
        let ghost p0 = self.payloads();
        let ghost tx0 = tx;
        let ghost metas_spec = tx.accessed();
        let mut metas: Vec<AccessMetadata> = Vec::new();
        {
            let declared = tx.accessed_resources();
            let mut k: usize = 0;
            while k < declared.len()
                invariant
                    k <= declared@.len(),
                    metas@ == declared@.subrange(0, k as int),
                decreases declared@.len() - k,
            {
                metas.push(declared[k]);
                k = k + 1;
                assert(metas@ =~= declared@.subrange(0, k as int));
            }
            assert(declared@.subrange(0, declared@.len() as int) =~= declared@);
        }
        let t = self.txs.len();
        self.txs.push(RuntimeTx { batch: b, resources: Vec::new(), pending_resources: 0, tx });
        assert(self.payloads() =~= p0.push(tx0));
        let ghost m1 = ManagerView {
            txs: m.txs.push(TxView { batch: b, resources: Seq::empty(), pending_resources: 0 }),
            ..m
        };
        proof {
            assert(self@.txs =~= m1.txs);
            assert(self@ =~= m1);
            assert forall|t2: int| 0 <= t2 < m1.txs.len() implies {
                let y = #[trigger] m1.txs[t2];
                &&& y.batch < m1.batches.len()
                &&& forall|i: int| 0 <= i < y.resources.len() ==> y.resources[i] < m1.accesses.len()
            } by {
                if t2 < m.txs.len() {
                    assert(m1.txs[t2] == m.txs[t2]);
                }
            }
            assert forall|a2: int| 0 <= a2 < m1.accesses.len() implies (#[trigger] m1.accesses[a2]).tx < m1.txs.len() by {
                assert(m.accesses[a2].tx < m.txs.len());
            }
            assert forall|b2: int| 0 <= b2 < m1.batches.len() implies {
                &&& forall|i: int| 0 <= i < (#[trigger] m1.batches[b2]).txs.len() ==> m1.batches[b2].txs[i] < m1.txs.len()
                &&& forall|i: int| 0 <= i < m1.batches[b2].available_txs.len() ==> m1.batches[b2].available_txs[i] < m1.txs.len()
            } by {
                assert(m.batches[b2] == m1.batches[b2]);
            }
            assert(wf_view(m1));
            assert(add_accesses(m1, t as int, metas@.subrange(0, 0)) == m1) by {
                assert(metas@.subrange(0, 0) =~= Seq::<AccessMetadata>::empty());
            }
        }
        let n = metas.len();
        let mut j: usize = 0;
        while j < n
            invariant
                self.wf(),
                n == metas@.len(),
                metas@ == metas_spec,
                j <= n,
                t == m1.txs.len() - 1,
                b < m1.batches.len(),
                self@ == add_accesses(m1, t as int, metas@.subrange(0, j as int)),
                self.payloads() == p0.push(tx0),
                self@.accesses.len() == m1.accesses.len() + j,
                self@.txs.len() == m1.txs.len(),
                self@.batches.len() == m1.batches.len(),
                self@.chains.len() == m1.chains.len(),
            decreases n - j,
        {
            self.add_access(t, metas[j]);
            proof {
                assert(metas@.subrange(0, j + 1).drop_last() =~= metas@.subrange(0, j as int));
            }
            j = j + 1;
        }
        assert(metas@.subrange(0, n as int) =~= metas_spec);
        let ghost m2 = self@;
        self.txs[t].pending_resources = n as u64;
        assert(self.payloads() =~= p0.push(tx0));
        proof {
            let x = m2.txs[t as int];
            assert(self@.txs =~= m2.txs.update(t as int, TxView { pending_resources: n as u64, ..x }));
            lemma_wf_set_tx(m2, t as int, TxView { pending_resources: n as u64, ..x });
        }
        let ghost m3 = self@;
        self.batches[b].txs.push(t);
        assert(self.payloads() =~= p0.push(tx0));
        proof {
            let x = m3.batches[b as int];
            assert(self@.batches =~= m3.batches.update(b as int, BatchView { txs: x.txs.push(t), ..x }));
            lemma_wf_set_batch(m3, b as int, BatchView { txs: x.txs.push(t), ..x });
            assert(self@ =~= add_tx(m, b as int, metas_spec));
        }
    }


    /// Schedules a batch of transactions: numbers it from the longest chain, links each of
    /// its accesses after the last access of the same resource, and connects the accesses,
    /// which hands over states already known and queues storage reads for the others.
    /// Returns the batch.
    pub fn schedule(&mut self, txs: Vec<Transaction<T>>) -> (b: usize)
        requires
            old(self).wf(),
            forall|i: int| 0 <= i < txs@.len() ==> distinct_resources(#[trigger] txs@[i].accessed()),
        ensures
            final(self).wf(),
            b == old(self)@.batches.len(),
            final(self)@ == schedule(old(self)@, txs@.map_values(|x: Transaction<T>| x.accessed())),
            final(self).payloads() == old(self).payloads() + txs@,
    {
        let ghost m = self@;
        let ghost p0 = self.payloads();
        let ghost all = txs@.map_values(|x: Transaction<T>| x.accessed());
        let c = self.longest_chain;
        let index = self.chains[c].next_batch_index();
        let ghost m1 = ManagerView {
            chains: m.chains.update(c as int, ChainView { last_batch_index: crate::chain::wrapping_inc(index), ..m.chains[c as int] }),
            ..m
        };
        proof {
            assert(self@.chains =~= m1.chains);
            assert(self@ =~= m1);
            assert forall|b2: int| 0 <= b2 < m1.batches.len() implies (#[trigger] m1.batches[b2]).chain < m1.chains.len() by {
                assert(m.batches[b2].chain < m.chains.len());
            }
        }
        let b = self.batches.len();
        self.batches.push(
            RuntimeBatch {
                chain: c,
                index,
                txs: Vec::new(),
                state_diffs: Vec::new(),
                available_txs: injector_new(),
                pending_txs: txs.len() as u64,
                pending_writes: 0,
                was_processed: false,
                was_persisted: false,
                was_committed: false,
            },
        );
        let ghost m2 = ManagerView {
            batches: m1.batches.push(
                BatchView {
                    chain: c,
                    index,
                    txs: Seq::empty(),
                    state_diffs: Seq::empty(),
                    available_txs: Seq::empty(),
                    pending_txs: txs@.len() as u64,
                    pending_writes: 0,
                    was_processed: false,
                    was_persisted: false,
                    was_committed: false,
                },
            ),
            ..m1
        };
        proof {
            assert(self@.batches =~= m2.batches);
            assert(self@ =~= m2);
            assert forall|b2: int| 0 <= b2 < m2.batches.len() implies {
                let x = #[trigger] m2.batches[b2];
                &&& x.chain < m2.chains.len()
                &&& forall|i: int| 0 <= i < x.txs.len() ==> x.txs[i] < m2.txs.len()
                &&& forall|i: int| 0 <= i < x.state_diffs.len() ==> x.state_diffs[i] < m2.state_diffs.len()
                &&& forall|i: int| 0 <= i < x.available_txs.len() ==> x.available_txs[i] < m2.txs.len()
            } by {
                if b2 < m1.batches.len() {
                    assert(m2.batches[b2] == m1.batches[b2]);
                }
            }
            assert forall|t2: int| 0 <= t2 < m2.txs.len() implies (#[trigger] m2.txs[t2]).batch < m2.batches.len() by {
                assert(m1.txs[t2].batch < m1.batches.len());
            }
            assert forall|d2: int| 0 <= d2 < m2.state_diffs.len() implies (#[trigger] m2.state_diffs[d2]).batch
                < m2.batches.len() by {
                assert(m1.state_diffs[d2].batch < m1.batches.len());
            }
            assert forall|i: int| 0 <= i < m2.writes.len() implies match #[trigger] m2.writes[i] {
                WriteView::StateDiff(d) => d < m2.state_diffs.len(),
                WriteView::CommitBatch(b) => b < m2.batches.len(),
                WriteView::Rollback { .. } => true,
            } by {
                assert(m1.writes[i] == m2.writes[i]);
            }
            assert(wf_view(m2));
            assert(all.subrange(0, 0) =~= Seq::<Seq<AccessMetadata>>::empty());
        }
        let start = self.accesses.len();
        let ghost orig = txs@;
        let n = txs.len();
        let mut rest = txs;
        let mut i: usize = 0;
        while i < n
            invariant
                self.wf(),
                n == orig.len(),
                i <= n,
                rest@ == orig.subrange(i as int, n as int),
                all == orig.map_values(|x: Transaction<T>| x.accessed()),
                b == m2.batches.len() - 1,
                self@ == add_txs(m2, b as int, all.subrange(0, i as int)),
                self.payloads() == p0 + orig.subrange(0, i as int),
                self@.batches.len() == m2.batches.len(),
                self@.chains.len() == m2.chains.len(),
                self@.accesses.len() >= start,
                start == m2.accesses.len(),
            decreases n - i,
        {
            let tx = rest.remove(0);
            assert(tx == orig[i as int]);
            self.add_tx(b, tx);
            assert(p0 + orig.subrange(0, i + 1) =~= (p0 + orig.subrange(0, i as int)).push(orig[i as int]));
            proof {
                assert(all.subrange(0, i + 1).drop_last() =~= all.subrange(0, i as int));
                assert(all.subrange(0, i + 1).last() == orig[i as int].accessed());
                assert(rest@ =~= orig.subrange(i + 1, n as int));
            }
            i = i + 1;
        }
        assert(all.subrange(0, n as int) =~= all);
        assert(orig.subrange(0, n as int) =~= orig);
        let ghost m3 = self@;
        let end = self.accesses.len();
        let mut a = start;
        while a < end
            invariant
                self.wf(),
                start <= a <= end,
                end == m3.accesses.len(),
                self@ == connect_range(m3, start as int, a as int),
                self.payloads() == p0 + orig,
                self@.accesses.len() == end,
            decreases end - a,
        {
            self.connect(a);
            a = a + 1;
        }
        proof {
            assert(m.accesses.len() == m2.accesses.len());
        }
        b
    }


    /// Whether every access of transaction `t` knows its read state.
    pub fn is_ready(&self, t: usize) -> (r: bool)
        requires
            self.wf(),
            t < self@.txs.len(),
        ensures
            r == tx_ready(self@, t as int),
    {
        let n = self.txs[t].resources.len();
        let mut i: usize = 0;
        while i < n
            invariant
                self.wf(),
                t < self@.txs.len(),
                n == self@.txs[t as int].resources.len(),
                i <= n,
                forall|j: int| 0 <= j < i ==> (#[trigger] self@.accesses[self@.txs[t as int].resources[j] as int]).read_state is Some,
            decreases n - i,
        {
            let a = self.txs[t].resources[i];
            assert(a < self@.accesses.len());
            if self.accesses[a].read_state.is_none() {
                assert(!(self@.accesses[self@.txs[t as int].resources[i as int] as int].read_state is Some));
                return false;
            }
            i = i + 1;
        }
        true
    }

    /// Whether `handles` are the handles of the accesses of transaction `t`, in order, as
    /// `execute` takes them back.
    pub fn handles_fit(&self, t: usize, handles: &Vec<AccessHandle>) -> (r: bool)
        requires
            self.wf(),
            t < self@.txs.len(),
        ensures
            r == (handles@.len() == self@.txs[t as int].resources.len() && forall|i: int|
                0 <= i < handles@.len() ==> (#[trigger] handles@[i])@.access == self@.txs[t as int].resources[i]),
    {
        let n = self.txs[t].resources.len();
        if handles.len() != n {
            return false;
        }
        let mut i: usize = 0;
        while i < n
            invariant
                t < self@.txs.len(),
                n == self@.txs[t as int].resources.len(),
                n == handles@.len(),
                i <= n,
                forall|j: int| 0 <= j < i ==> (#[trigger] handles@[j])@.access == self@.txs[t as int].resources[j],
            decreases n - i,
        {
            if handles[i].access != self.txs[t].resources[i] {
                return false;
            }
            i = i + 1;
        }
        true
    }

    /// The handles transaction `t` executes with: the read state of each of its accesses.
    pub fn access_handles(&self, t: usize) -> (r: Vec<AccessHandle>)
        requires
            self.wf(),
            t < self@.txs.len(),
            tx_ready(self@, t as int),
        ensures
            r@.map_values(|h: AccessHandle| h@) == handles_of(self@, t as int),
    {
        let n = self.txs[t].resources.len();
        let mut r: Vec<AccessHandle> = Vec::new();
        let mut i: usize = 0;
        while i < n
            invariant
                self.wf(),
                t < self@.txs.len(),
                tx_ready(self@, t as int),
                n == self@.txs[t as int].resources.len(),
                i <= n,
                r@.map_values(|h: AccessHandle| h@) == handles_of(self@, t as int).subrange(0, i as int),
            decreases n - i,
        {
            let a = self.txs[t].resources[i];
            assert(a < self@.accesses.len());
            assert(self@.accesses[self@.txs[t as int].resources[i as int] as int].read_state is Some);
            let st = self.accesses[a].read_state.as_ref().unwrap().duplicate();
            let ghost r0 = r@;
            assert(r0.map_values(|h: AccessHandle| h@).len() == i);
            assert(st@ == self@.accesses[a as int].read_state->0);
            r.push(AccessHandle { state_version: st, access: a, metadata: self.accesses[a].metadata });
            proof {
                let hv = AccessHandleView {
                    state: self@.accesses[a as int].read_state->0,
                    access: a,
                    metadata: self@.accesses[a as int].metadata,
                };
                assert(handles_of(self@, t as int)[i as int] == hv);
                assert(r@[i as int]@ == hv);
                assert(r@.map_values(|h: AccessHandle| h@) =~= r0.map_values(|h: AccessHandle| h@).push(hv));
            }
            i = i + 1;
            assert(r@.map_values(|h: AccessHandle| h@) =~= handles_of(self@, t as int).subrange(0, i as int));
        }
        assert(handles_of(self@, t as int).subrange(0, n as int) =~= handles_of(self@, t as int));
        r
    }

    fn decrease_pending_txs(&mut self, b: usize)
        requires
            old(self).wf(),
            b < old(self)@.batches.len(),
        ensures
            final(self).wf(),
            final(self).payloads() == old(self).payloads(),
            final(self)@ == decrease_pending_txs(old(self)@, b as int),
            same_sizes(old(self)@, final(self)@),
    {
        let ghost m = self@;
        let p = self.batches[b].pending_txs;
        self.batches[b].pending_txs = if p == 0 {
            u64::MAX
        } else {
            p - 1
        };
        if p == 1 {
            self.batches[b].was_processed = true;
            if self.batches[b].pending_writes == 0 {
                self.batches[b].was_persisted = true;
            }
        }
        proof {
            let x = m.batches[b as int];
            let y = BatchView {
                pending_txs: wrapping_dec(x.pending_txs),
                was_processed: x.was_processed || x.pending_txs == 1,
                was_persisted: x.was_persisted || (x.pending_txs == 1 && x.pending_writes == 0),
                ..x
            };
            assert(self@.batches =~= m.batches.update(b as int, y));
            lemma_wf_set_batch(m, b as int, y);
        }
    }

    /// Finishes the execution of transaction `t` with the handles it worked on: on success
    /// each writing access publishes its handle's state, on failure its unchanged read
    /// state; then the batch has one transaction fewer to execute.
    pub fn execute(&mut self, t: usize, handles: Vec<AccessHandle>, ok: bool)
        requires
            old(self).wf(),
            t < old(self)@.txs.len(),
            tx_ready(old(self)@, t as int),
            handles@.len() == old(self)@.txs[t as int].resources.len(),
            forall|i: int|
                0 <= i < handles@.len() ==> (#[trigger] handles@[i])@.access == old(self)@.txs[t as int].resources[i],
        ensures
            final(self).wf(),
            final(self).payloads() == old(self).payloads(),
            final(self)@ == execute(old(self)@, t as int, handles@.map_values(|h: AccessHandle| h@), ok),
    {
        let ghost m = self@;
        let ghost p0 = self.payloads();
        let ghost hs = handles@.map_values(|h: AccessHandle| h@);
        let b = self.txs[t].batch;
        assert(b < m.batches.len());
        let n = handles.len();
        let mut rest = handles;
        let ghost orig = rest@;
        let mut i: usize = 0;
        proof {
            assert(hs.subrange(0, 0) =~= Seq::<AccessHandleView>::empty());
        }
        while i < n
            invariant
                self.wf(),
                n == orig.len(),
                i <= n,
                hs == orig.map_values(|h: AccessHandle| h@),
                rest@ == orig.subrange(i as int, n as int),
                t < m.txs.len(),
                b == m.txs[t as int].batch,
                b < m.batches.len(),
                forall|j: int| 0 <= j < n ==> (#[trigger] orig[j])@.access == m.txs[t as int].resources[j],
                forall|j: int| 0 <= j < m.txs[t as int].resources.len() ==> m.txs[t as int].resources[j] < m.accesses.len(),
                n == m.txs[t as int].resources.len(),
                self@ == finish_handles(m, hs.subrange(0, i as int), ok),
                self.payloads() == p0,
                same_sizes(m, self@),
                forall|j: int|
                    0 <= j < n ==> (#[trigger] self@.accesses[m.txs[t as int].resources[j] as int]).read_state
                        == m.accesses[m.txs[t as int].resources[j] as int].read_state,
                tx_ready(m, t as int),
            decreases n - i,
        {
            let h = rest.remove(0);
            assert(h == orig[i as int]);
            let a = h.access;
            let ghost before = self@;
            assert(a == m.txs[t as int].resources[i as int]);
            assert(m.accesses[a as int].read_state is Some);
            assert(self@.accesses[m.txs[t as int].resources[i as int] as int].read_state
                == m.accesses[m.txs[t as int].resources[i as int] as int].read_state);
            if self.accesses[a].metadata.access_type == AccessType::Write {
                if ok {
                    proof {
                        lemma_published_states_stay(before, a as int, h@.state, false);
                    }
                    self.set_written_state(a, h.state_version);
                } else {
                    let rs = self.accesses[a].read_state.as_ref().unwrap().duplicate();
                    proof {
                        lemma_published_states_stay(before, a as int, rs@, false);
                    }
                    self.set_written_state(a, rs);
                }
            }
            proof {
                assert(hs.subrange(0, i + 1).drop_last() =~= hs.subrange(0, i as int));
                assert(hs.subrange(0, i + 1).last() == h@);
                assert(rest@ =~= orig.subrange(i + 1, n as int));
                assert forall|j: int|
                    0 <= j < n implies (#[trigger] self@.accesses[m.txs[t as int].resources[j] as int]).read_state
                        == m.accesses[m.txs[t as int].resources[j] as int].read_state by {
                    let aj = m.txs[t as int].resources[j] as int;
                    assert(before.accesses[aj].read_state == m.accesses[aj].read_state);
                    assert(m.accesses[aj].read_state is Some);
                }
            }
            i = i + 1;
        }
        assert(hs.subrange(0, n as int) =~= hs);
        self.decrease_pending_txs(b);
    }

    /// Takes the oldest available transaction of batch `b`; some of the transactions after it
    /// may move along to the worker queue `worker`.
    pub fn steal_available_tasks(&mut self, b: usize, worker: &Worker<usize>) -> (r: Stolen)
        requires
            old(self).wf(),
            b < old(self)@.batches.len(),
        ensures
            final(self).wf(),
            final(self).payloads() == old(self).payloads(),
            old(self)@.batches[b as int].available_txs.len() == 0 ==> r is Empty,
            ({
                let x = old(self)@.batches[b as int];
                let y = final(self)@.batches[b as int];
                match r {
                    Stolen::Success(t) => {
                        &&& x.available_txs.len() > 0
                        &&& t == x.available_txs[0]
                        &&& y.available_txs.len() < x.available_txs.len()
                        &&& y.available_txs == x.available_txs.skip(x.available_txs.len() - y.available_txs.len())
                        &&& final(self)@ == set_batch(old(self)@, b as int, BatchView { available_txs: y.available_txs, ..x })
                    },
                    Stolen::Empty => x.available_txs.len() == 0 && final(self)@ == old(self)@,
                    Stolen::Retry => final(self)@ == old(self)@,
                }
            }),
    {
        let ghost m = self@;
        let r = injector_steal_batch_and_pop(&mut self.batches[b].available_txs, worker);
        proof {
            let x = m.batches[b as int];
            let y = BatchView { available_txs: injector_contents(self.batches@[b as int].available_txs), ..x };
            assert(self@.batches =~= m.batches.update(b as int, y));
            if !(r is Success) {
                assert(y == x);
                assert(self@.batches =~= m.batches);
                assert(self@ =~= m);
            } else {
                assert forall|i: int| 0 <= i < y.available_txs.len() implies y.available_txs[i] < m.txs.len() by {
                    let k = x.available_txs.len() - y.available_txs.len();
                    assert(y.available_txs[i] == x.available_txs[i + k]);
                }
                lemma_wf_set_batch(m, b as int, y);
            }
        }
        r
    }

    /// Whether the first storage read can be served.
    pub fn next_read_ready(&self) -> (r: bool)
        requires
            self.wf(),
        ensures
            r == read_ready(self@),
    {
        if self.storage_manager.reads.len() == 0 {
            return true;
        }
        match &self.storage_manager.reads[0] {
            Read::LatestData(a) => {
                assert(self@.reads[0] == ReadView::LatestData(*a));
                let id = self.accesses[*a].metadata.id;
                latest_data_available(&self.storage_manager.store, id)
            },
        }
    }

    /// Serves the first storage read, if any: the access learns the latest stored state of
    /// its resource, which propagates as `set_read_state` says.
    pub fn process_read(&mut self) -> (r: bool)
        requires
            old(self).wf(),
            read_ready(old(self)@),
        ensures
            final(self).wf(),
            final(self).payloads() == old(self).payloads(),
            r == (old(self)@.reads.len() > 0),
            r ==> final(self)@ == process_read(old(self)@),
            !r ==> final(self)@ == old(self)@,
    {
        let ghost m = self@;
        if self.storage_manager.reads.len() == 0 {
            return false;
        }
        let cmd = self.storage_manager.reads.remove(0);
        let ghost m1 = ManagerView { reads: m.reads.drop_first(), ..m };
        proof {
            assert(self@.reads =~= m1.reads);
            assert(self@ =~= m1);
            assert(cmd@ == m.reads[0]);
            assert forall|i: int| 0 <= i < m1.reads.len() implies (#[trigger] m1.reads[i] matches ReadView::LatestData(x)
                ==> x < m1.accesses.len()) by {
                assert(m1.reads[i] == m.reads[i + 1]);
            }
        }
        match cmd {
            Read::LatestData(a) => {
                let id = self.accesses[a].metadata.id;
                let st = VersionedState::from_latest_data(&self.storage_manager.store, id);
                self.set_read_state(a, st);
            },
        }
        true
    }

    /// Whether the first storage write has the states it needs.
    pub fn next_write_ready(&self) -> (r: bool)
        requires
            self.wf(),
        ensures
            r == write_ready(self@),
    {
        if self.storage_manager.writes.len() == 0 {
            return true;
        }
        match &self.storage_manager.writes[0] {
            Write::StateDiff(d) => {
                assert(self@.writes[0] == WriteView::StateDiff(*d));
                let x = &self.state_diffs[*d];
                x.read_state.is_some() && match &x.written_state {
                    Some(w) => w.data().len() <= 0xffff_ffffusize,
                    None => false,
                }
            },
            Write::CommitBatch(b) => {
                let b = *b;
                assert(self@.writes[0] == WriteView::CommitBatch(b));
                if self.was_canceled(b) {
                    return true;
                }
                let n = self.batches[b].state_diffs.len();
                let mut i: usize = 0;
                while i < n
                    invariant
                        self.wf(),
                        b < self@.batches.len(),
                        self@.writes.len() > 0,
                        self@.writes[0] == WriteView::CommitBatch(b),
                        !was_canceled(self@, b as int),
                        n == self@.batches[b as int].state_diffs.len(),
                        i <= n,
                        forall|j: int|
                            0 <= j < i ==> (#[trigger] self@.state_diffs[self@.batches[b as int].state_diffs[j] as int]).written_state is Some,
                    decreases n - i,
                {
                    let d = self.batches[b].state_diffs[i];
                    assert(d < self@.state_diffs.len());
                    if self.state_diffs[d].written_state.is_none() {
                        assert(!(self@.state_diffs[self@.batches[b as int].state_diffs[i as int] as int].written_state is Some));
                        return false;
                    }
                    i = i + 1;
                }
                true
            },
            Write::Rollback(_) => has_rollback_layout(&self.storage_manager.store),
        }
    }

    fn decrease_pending_writes(&mut self, b: usize)
        requires
            old(self).wf(),
            b < old(self)@.batches.len(),
        ensures
            final(self).wf(),
            final(self).payloads() == old(self).payloads(),
            final(self)@ == decrease_pending_writes(old(self)@, b as int),
    {
        let ghost m = self@;
        let p = self.batches[b].pending_writes;
        self.batches[b].pending_writes = if p == i64::MIN {
            i64::MAX
        } else {
            p - 1
        };
        if p == 1 && self.batches[b].pending_txs == 0 {
            self.batches[b].was_persisted = true;
        }
        proof {
            let x = m.batches[b as int];
            let y = BatchView {
                pending_writes: wrapping_dec_i64(x.pending_writes),
                was_persisted: x.was_persisted || (x.pending_writes == 1 && x.pending_txs == 0),
                ..x
            };
            assert(self@.batches =~= m.batches.update(b as int, y));
            lemma_wf_set_batch(m, b as int, y);
        }
    }

    /// Executes the first storage write, if any, and reports it done: a state diff stores
    /// its written data and rollback pointer; a commit makes the batch's written states
    /// latest; a rollback reverts its batches.
    pub fn process_write(&mut self) -> (r: bool)
        requires
            old(self).wf(),
            write_ready(old(self)@),
        ensures
            final(self).wf(),
            final(self).payloads() == old(self).payloads(),
            r == (old(self)@.writes.len() > 0),
            !r ==> final(self)@ == old(self)@,
            r ==> match old(self)@.writes[0] {
                WriteView::StateDiff(d) => {
                    let m1 = pop_write(old(self)@);
                    final(self)@ == decrease_pending_writes(
                        with_store(m1, apply_ops(m1.store, state_diff_ops(m1, d as int))),
                        m1.state_diffs[d as int].batch as int,
                    )
                },
                WriteView::CommitBatch(b) => {
                    let m1 = pop_write(old(self)@);
                    let m2 = with_store(m1, apply_ops(m1.store, commit_ops(m1, b as int)));
                    final(self)@ == set_batch(m2, b as int, BatchView { was_committed: true, ..m2.batches[b as int] })
                },
                WriteView::Rollback { lower_bound, upper_bound } => {
                    &&& final(self)@ == with_store(pop_write(old(self)@), final(self)@.store)
                    &&& rolled_back(old(self)@.store, final(self)@.store, lower_bound as int, upper_bound as int)
                },
            },
    {
        let ghost m = self@;
        if self.storage_manager.writes.len() == 0 {
            return false;
        }
        let cmd = self.storage_manager.writes.remove(0);
        let ghost m1 = pop_write(m);
        proof {
            assert(self@.writes =~= m1.writes);
            assert(self@ =~= m1);
            assert(cmd@ == m.writes[0]);
            assert forall|i: int| 0 <= i < m1.writes.len() implies match #[trigger] m1.writes[i] {
                WriteView::StateDiff(d) => d < m1.state_diffs.len(),
                WriteView::CommitBatch(b) => b < m1.batches.len(),
                WriteView::Rollback { .. } => true,
            } by {
                assert(m1.writes[i] == m.writes[i + 1]);
            }
            assert(wf_view(m1));
        }
        match cmd {
            Write::StateDiff(d) => {
                self.write_state_diff(d);
            },
            Write::CommitBatch(b) => {
                self.commit_batch(b);
            },
            Write::Rollback(mut rollback) => {
                let wb = self.storage_manager.store.write_batch();
                let rest = rollback.execute(&mut self.storage_manager.store, wb);
                rollback.done();
                assert(self@ =~= with_store(m1, self@.store));
            },
        }
        true
    }

    /// Stores the written data of state diff `d` and the rollback pointer of its read state,
    /// then reports the write done.
    fn write_state_diff(&mut self, d: usize)
        requires
            old(self).wf(),
            d < old(self)@.state_diffs.len(),
            old(self)@.state_diffs[d as int].read_state is Some,
            old(self)@.state_diffs[d as int].written_state is Some,
            old(self)@.state_diffs[d as int].written_state->0.data.len() <= u32::MAX,
        ensures
            final(self).wf(),
            final(self).payloads() == old(self).payloads(),
            final(self)@ == decrease_pending_writes(
                with_store(old(self)@, apply_ops(old(self)@.store, state_diff_ops(old(self)@, d as int))),
                old(self)@.state_diffs[d as int].batch as int,
            ),
    {
        let ghost m1 = self@;
        let mut wb = self.storage_manager.store.write_batch();
        let b = self.state_diffs[d].batch;
        assert(b < m1.batches.len());
        let index = self.batches[b].index;
        self.state_diffs[d].written_state().write_data(&mut wb);
        self.state_diffs[d].read_state().write_rollback_ptr(&mut wb, index);
        proof {
            assert(wb@ =~= state_diff_ops(m1, d as int));
        }
        self.storage_manager.store.commit(wb);
        let ghost m2 = with_store(m1, apply_ops(m1.store, state_diff_ops(m1, d as int)));
        assert(self@ =~= m2);
        self.decrease_pending_writes(b);
    }

    /// Makes the written state of every state diff of batch `b` latest, unless the batch was
    /// canceled, then reports the batch committed.
    fn commit_batch(&mut self, b: usize)
        requires
            old(self).wf(),
            b < old(self)@.batches.len(),
            !was_canceled(old(self)@, b as int) ==> forall|i: int|
                0 <= i < old(self)@.batches[b as int].state_diffs.len()
                    ==> (#[trigger] old(self)@.state_diffs[old(self)@.batches[b as int].state_diffs[i] as int]).written_state is Some,
        ensures
            final(self).wf(),
            final(self).payloads() == old(self).payloads(),
            ({
                let m2 = with_store(old(self)@, apply_ops(old(self)@.store, commit_ops(old(self)@, b as int)));
                final(self)@ == set_batch(m2, b as int, BatchView { was_committed: true, ..m2.batches[b as int] })
            }),
    {
        let ghost m1 = self@;
        let mut wb = self.storage_manager.store.write_batch();
        let ghost ops = commit_ops(m1, b as int);
        if !self.was_canceled(b) {
            let n = self.batches[b].state_diffs.len();
            let mut i: usize = 0;
            while i < n
                invariant
                    self.wf(),
                    self@ == m1,
                    b < m1.batches.len(),
                    !was_canceled(m1, b as int),
                    n == m1.batches[b as int].state_diffs.len(),
                    i <= n,
                    ops == commit_ops(m1, b as int),
                    wb@ == ops.subrange(0, i as int),
                    forall|j: int|
                        0 <= j < n ==> (#[trigger] m1.state_diffs[m1.batches[b as int].state_diffs[j] as int]).written_state is Some,
                decreases n - i,
            {
                let d = self.batches[b].state_diffs[i];
                assert(d < m1.state_diffs.len());
                assert(m1.state_diffs[m1.batches[b as int].state_diffs[i as int] as int].written_state is Some);
                self.state_diffs[d].written_state().write_latest_ptr(&mut wb);
                i = i + 1;
                assert(wb@ =~= ops.subrange(0, i as int));
            }
            assert(ops.subrange(0, n as int) =~= ops);
        } else {
            assert(wb@ =~= ops);
        }
        self.storage_manager.store.commit(wb);
        let ghost m2 = with_store(m1, apply_ops(m1.store, ops));
        assert(self@ =~= m2);
        self.batches[b].was_committed = true;
        proof {
            let x = m2.batches[b as int];
            assert(self@.batches =~= m2.batches.update(b as int, BatchView { was_committed: true, ..x }));
            lemma_wf_set_batch(m2, b as int, BatchView { was_committed: true, ..x });
        }
    }

    /// Hands the commit of batch `b` to storage, unless the batch was canceled.
    pub fn schedule_commit(&mut self, b: usize)
        requires
            old(self).wf(),
            b < old(self)@.batches.len(),
        ensures
            final(self).wf(),
            final(self).payloads() == old(self).payloads(),
            final(self)@ == schedule_commit(old(self)@, b as int),
    {
        let ghost m = self@;
        if !self.was_canceled(b) {
            self.storage_manager.writes.push(Write::CommitBatch(b));
            proof {
                assert(self@.writes =~= m.writes.push(WriteView::CommitBatch(b)));
                lemma_wf_push_write(m, WriteView::CommitBatch(b));
            }
        }
    }

    /// Whether a rollback still waits for storage.
    pub fn rollback_pending(&self) -> (r: bool)
        ensures
            r == exists|i: int| 0 <= i < self@.writes.len() && #[trigger] self@.writes[i] is Rollback,
    {
        let mut i: usize = 0;
        while i < self.storage_manager.writes.len()
            invariant
                i <= self@.writes.len(),
                forall|j: int| 0 <= j < i ==> !(#[trigger] self@.writes[j] is Rollback),
            decreases self@.writes.len() - i,
        {
            if let Write::Rollback(_) = &self.storage_manager.writes[i] {
                assert(self@.writes[i as int] is Rollback);
                return true;
            }
            i = i + 1;
        }
        false
    }

    /// Rolls the runtime back to batch `target_index`, if the last batch of the longest chain
    /// is beyond it: cuts the chain, which cancels its later batches, continues numbering
    /// from `target_index` on the chain that the cut returns, hands the rollback of the later
    /// batches to storage and forgets the last access of every resource, whose state the
    /// rollback may change.
    pub fn rollback_to(&mut self, target_index: u64)
        requires
            old(self).wf(),
        ensures
            final(self).wf(),
            final(self).payloads() == old(self).payloads(),
            final(self)@ == rollback_to(old(self)@, target_index),
    {
        let ghost m = self@;
        let c = self.longest_chain;
        let counter = self.chains[c].last_batch_index();
        if counter > 0 && counter - 1 > target_index {
            let upper_bound = counter - 1;
            let next = self.chains[c].rollback(target_index);
            self.chains.push(next);
            self.longest_chain = self.chains.len() - 1;
            let rollback = Rollback::new(target_index + 1, upper_bound);
            self.storage_manager.writes.push(Write::Rollback(rollback));
            self.resources.clear();
            proof {
                let m2 = rollback_to(m, target_index);
                assert(self@.chains =~= m2.chains);
                assert(self@.writes =~= m2.writes);
                assert(self@ =~= m2);
                assert forall|b2: int| 0 <= b2 < m2.batches.len() implies (#[trigger] m2.batches[b2]).chain < m2.chains.len() by {
                    assert(m.batches[b2].chain < m.chains.len());
                }
                assert forall|i: int| 0 <= i < m2.writes.len() implies match #[trigger] m2.writes[i] {
                    WriteView::StateDiff(d) => d < m2.state_diffs.len(),
                    WriteView::CommitBatch(b) => b < m2.batches.len(),
                    WriteView::Rollback { .. } => true,
                } by {
                    if i < m.writes.len() {
                        assert(m2.writes[i] == m.writes[i]);
                    }
                }
            }
        }
    }

    /// A runtime over `store`, numbering batches from 0.
    pub fn new(store: Store) -> (r: RuntimeManager<T>)
        requires
            store.wf(),
        ensures
            r.wf(),
            r@ == (ManagerView {
                chains: seq![ChainView { last_batch_index: 0, rollback_threshold: u64::MAX }],
                longest_chain: 0,
                resources: Map::empty(),
                accesses: Seq::empty(),
                txs: Seq::empty(),
                state_diffs: Seq::empty(),
                batches: Seq::empty(),
                store: store@,
                reads: Seq::empty(),
                writes: Seq::empty(),
            }),
    {
        let mut chains: Vec<Chain> = Vec::new();
        chains.push(Chain::new(0));
        let r = RuntimeManager {
            longest_chain: 0,
            chains,
            storage_manager: StorageManager { store, reads: Vec::new(), writes: Vec::new() },
            resources: HashMap::new(),
            accesses: Vec::new(),
            txs: Vec::new(),
            state_diffs: Vec::new(),
            batches: Vec::new(),
        };
        assert(r@.chains =~= seq![ChainView { last_batch_index: 0, rollback_threshold: u64::MAX }]);
        assert(r@.accesses =~= Seq::<AccessView>::empty());
        assert(r@.txs =~= Seq::<TxView>::empty());
        assert(r@.state_diffs =~= Seq::<StateDiffView>::empty());
        assert(r@.batches =~= Seq::<BatchView>::empty());
        assert(r@.reads =~= Seq::<ReadView>::empty());
        assert(r@.writes =~= Seq::<WriteView>::empty());
        r
    }

    /// The chain that new batches are numbered from.
    pub fn longest_chain(&self) -> (r: &Chain)
        requires
            self.wf(),
        ensures
            r@ == self@.chains[self@.longest_chain as int],
    {
        &self.chains[self.longest_chain]
    }

    pub fn storage_manager(&self) -> (r: &StorageManager)
        requires
            self.wf(),
        ensures
            r.store_view() == self@.store,
            r.wf(),
    {
        &self.storage_manager
    }

    pub fn batch(&self, b: usize) -> (r: &RuntimeBatch)
        requires
            b < self@.batches.len(),
        ensures
            r@ == self@.batches[b as int],
    {
        &self.batches[b]
    }

    pub fn tx(&self, t: usize) -> (r: &RuntimeTx<T>)
        requires
            t < self@.txs.len(),
        ensures
            r@ == self@.txs[t as int],
            r.transaction() == self.payloads()[t as int],
    {
        &self.txs[t]
    }

    pub fn access(&self, a: usize) -> (r: &ResourceAccess)
        requires
            a < self@.accesses.len(),
        ensures
            r@ == self@.accesses[a as int],
    {
        &self.accesses[a]
    }

    pub fn state_diff(&self, d: usize) -> (r: &StateDiff)
        requires
            d < self@.state_diffs.len(),
        ensures
            r@ == self@.state_diffs[d as int],
    {
        &self.state_diffs[d]
    }

    pub fn num_batches(&self) -> (r: usize)
        ensures
            r == self@.batches.len(),
    {
        self.batches.len()
    }

    /// Whether batch `b` belongs to a chain that was rolled back below its index.
    pub fn was_canceled(&self, b: usize) -> (r: bool)
        requires
            self.wf(),
            b < self@.batches.len(),
        ensures
            r == was_canceled(self@, b as int),
    {
        let c = self.batches[b].chain;
        assert(self@.batches[b as int].chain < self@.chains.len());
        self.batches[b].was_canceled(&self.chains[c])
    }
}

} // verus!
