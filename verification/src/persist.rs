//! Every batch counts exactly the state diffs it has waiting in the storage queue, so a
//! batch that is processed and has no write left is persisted, whichever finished last.
//! `writes_counted` states this; it holds of a new runtime, and each step keeps it while the
//! storage queue stays shorter than `i64::MAX`, the range of the counter.

use vstd::prelude::*;

use crate::access::{AccessMetadata, AccessType};
use crate::manager::{
    add_access, add_accesses, add_tx, add_txs, connect, connect_range, decrease_pending_resources,
    decrease_pending_txs, decrease_pending_writes, execute, finish_handles, lemma_done_batch_persisted,
    persisted_when_done, pop_write, process_read, rollback_to, schedule, schedule_commit, set_access, set_batch,
    set_diff, set_read_state, set_tx, set_written_state, submit_write, was_canceled, with_store, wf_view,
    AccessHandleView, AccessView, BatchView, ManagerView, StateDiffView, TxView, WriteView,
};
use crate::chain::ChainView;
use crate::store::StoreView;
use crate::versioned_state::VersionedStateView;

verus! {

/// 1 if `w` writes a state diff of batch `b`, else 0.
pub open spec fn diff_of(w: WriteView, diffs: Seq<StateDiffView>, b: int) -> int {
    match w {
        WriteView::StateDiff(d) => if d < diffs.len() && diffs[d as int].batch == b {
            1
        } else {
            0
        },
        _ => 0,
    }
}

/// How many writes of `ws` write a state diff of batch `b`.
pub open spec fn queued(ws: Seq<WriteView>, diffs: Seq<StateDiffView>, b: int) -> int
    decreases ws.len(),
{
    if ws.len() == 0 {
        0
    } else {
        diff_of(ws[0], diffs, b) + queued(ws.drop_first(), diffs, b)
    }
}

/// Each batch's pending writes are its state diffs in the storage queue, a processed batch
/// with nothing pending is persisted, and the indices these rest on are in range.
pub open spec fn writes_counted(m: ManagerView) -> bool {
    &&& forall|b: int|
        0 <= b < m.batches.len() ==> (#[trigger] m.batches[b]).pending_writes == queued(m.writes, m.state_diffs, b)
            && persisted_when_done(m.batches[b])
    &&& forall|a: int| 0 <= a < m.accesses.len() ==> (#[trigger] m.accesses[a]).state_diff < m.state_diffs.len()
    &&& forall|d: int| 0 <= d < m.state_diffs.len() ==> (#[trigger] m.state_diffs[d]).batch < m.batches.len()
    &&& forall|i: int|
        0 <= i < m.writes.len() ==> (#[trigger] m.writes[i] matches WriteView::StateDiff(d) ==> d < m.state_diffs.len())
}

proof fn lemma_queued_push(ws: Seq<WriteView>, diffs: Seq<StateDiffView>, b: int, w: WriteView)
    ensures
        queued(ws.push(w), diffs, b) == queued(ws, diffs, b) + diff_of(w, diffs, b),
    decreases ws.len(),
{
    if ws.len() > 0 {
        assert(ws.push(w)[0] == ws[0]);
        assert(ws.push(w).drop_first() =~= ws.drop_first().push(w));
        lemma_queued_push(ws.drop_first(), diffs, b, w);
    } else {
        assert(ws.push(w)[0] == w);
        assert(ws.push(w).drop_first() =~= Seq::<WriteView>::empty());
        assert(queued(ws.push(w).drop_first(), diffs, b) == 0);
    }
}

proof fn lemma_queued_bound(ws: Seq<WriteView>, diffs: Seq<StateDiffView>, b: int)
    ensures
        0 <= queued(ws, diffs, b) <= ws.len(),
    decreases ws.len(),
{
    if ws.len() > 0 {
        lemma_queued_bound(ws.drop_first(), diffs, b);
    }
}

proof fn lemma_queued_frame(ws: Seq<WriteView>, d1: Seq<StateDiffView>, d2: Seq<StateDiffView>, b: int)
    requires
        forall|i: int|
            0 <= i < ws.len() ==> (#[trigger] ws[i] matches WriteView::StateDiff(d) ==> d < d1.len() && d < d2.len()
                && d1[d as int].batch == d2[d as int].batch),
    ensures
        queued(ws, d1, b) == queued(ws, d2, b),
    decreases ws.len(),
{
    if ws.len() > 0 {
        let r = ws.drop_first();
        assert forall|i: int| 0 <= i < r.len() implies (#[trigger] r[i] matches WriteView::StateDiff(d) ==> d
            < d1.len() && d < d2.len() && d1[d as int].batch == d2[d as int].batch) by {
            assert(r[i] == ws[i + 1]);
        }
        lemma_queued_frame(r, d1, d2, b);
        assert(ws[0] == ws[0]);
    }
}

/// `m2` keeps the storage queue, the counters and flags of every batch, the batch of every
/// state diff and the state diff of every access of `m1`; what `m2` adds is a batch with
/// nothing written, a state diff of an existing batch, or an access of an existing state diff.
pub open spec fn grows(m1: ManagerView, m2: ManagerView) -> bool {
    &&& m2.writes == m1.writes
    &&& m1.batches.len() <= m2.batches.len()
    &&& forall|b: int|
        0 <= b < m1.batches.len() ==> {
            let x = #[trigger] m1.batches[b];
            let y = m2.batches[b];
            y.pending_writes == x.pending_writes && y.pending_txs == x.pending_txs && y.was_processed
                == x.was_processed && y.was_persisted == x.was_persisted
        }
    &&& forall|b: int|
        m1.batches.len() <= b < m2.batches.len() ==> (#[trigger] m2.batches[b]).pending_writes == 0
            && persisted_when_done(m2.batches[b])
    &&& m1.state_diffs.len() <= m2.state_diffs.len()
    &&& forall|d: int| 0 <= d < m1.state_diffs.len() ==> (#[trigger] m2.state_diffs[d]).batch == m1.state_diffs[d].batch
    &&& forall|d: int|
        m1.state_diffs.len() <= d < m2.state_diffs.len() ==> (#[trigger] m2.state_diffs[d]).batch < m2.batches.len()
    &&& m1.accesses.len() <= m2.accesses.len()
    &&& forall|a: int| 0 <= a < m1.accesses.len() ==> (#[trigger] m2.accesses[a]).state_diff == m1.accesses[a].state_diff
    &&& forall|a: int|
        m1.accesses.len() <= a < m2.accesses.len() ==> (#[trigger] m2.accesses[a]).state_diff < m2.state_diffs.len()
}

proof fn lemma_queued_zero(ws: Seq<WriteView>, diffs: Seq<StateDiffView>, b: int)
    requires
        forall|i: int|
            0 <= i < ws.len() ==> (#[trigger] ws[i] matches WriteView::StateDiff(d) ==> d < diffs.len()
                && diffs[d as int].batch != b),
    ensures
        queued(ws, diffs, b) == 0,
    decreases ws.len(),
{
    if ws.len() > 0 {
        let r = ws.drop_first();
        assert forall|i: int| 0 <= i < r.len() implies (#[trigger] r[i] matches WriteView::StateDiff(d) ==> d
            < diffs.len() && diffs[d as int].batch != b) by {
            assert(r[i] == ws[i + 1]);
        }
        lemma_queued_zero(r, diffs, b);
        assert(ws[0] == ws[0]);
    }
}

proof fn lemma_grows(m1: ManagerView, m2: ManagerView)
    requires
        writes_counted(m1),
        grows(m1, m2),
    ensures
        writes_counted(m2),
{
    assert forall|i: int| 0 <= i < m1.writes.len() implies (#[trigger] m1.writes[i] matches WriteView::StateDiff(d)
        ==> d < m1.state_diffs.len() && d < m2.state_diffs.len() && m1.state_diffs[d as int].batch
        == m2.state_diffs[d as int].batch) by {
        if let WriteView::StateDiff(d) = m1.writes[i] {
            assert(m2.state_diffs[d as int].batch == m1.state_diffs[d as int].batch);
        }
    }
    assert forall|b: int| 0 <= b < m2.batches.len() implies (#[trigger] m2.batches[b]).pending_writes == queued(
        m2.writes,
        m2.state_diffs,
        b,
    ) && persisted_when_done(m2.batches[b]) by {
        lemma_queued_frame(m1.writes, m1.state_diffs, m2.state_diffs, b);
        if b < m1.batches.len() {
            assert(m1.batches[b].pending_writes == queued(m1.writes, m1.state_diffs, b));
            assert(persisted_when_done(m1.batches[b]));
        } else {
            assert forall|i: int| 0 <= i < m1.writes.len() implies (#[trigger] m1.writes[i] matches WriteView::StateDiff(
                d,
            ) ==> d < m1.state_diffs.len() && m1.state_diffs[d as int].batch != b) by {
                if let WriteView::StateDiff(d) = m1.writes[i] {
                    assert(m1.state_diffs[d as int].batch < m1.batches.len());
                }
            }
            lemma_queued_zero(m1.writes, m1.state_diffs, b);
        }
    }
    assert forall|a: int| 0 <= a < m2.accesses.len() implies (#[trigger] m2.accesses[a]).state_diff < m2.state_diffs.len() by {
        if a < m1.accesses.len() {
            assert(m1.accesses[a].state_diff < m1.state_diffs.len());
        }
    }
    assert forall|d: int| 0 <= d < m2.state_diffs.len() implies (#[trigger] m2.state_diffs[d]).batch < m2.batches.len() by {
        if d < m1.state_diffs.len() {
            assert(m1.state_diffs[d].batch < m1.batches.len());
        }
    }
    assert forall|i: int| 0 <= i < m2.writes.len() implies (#[trigger] m2.writes[i] matches WriteView::StateDiff(d)
        ==> d < m2.state_diffs.len()) by {
        assert(m2.writes[i] == m1.writes[i]);
    }
}

proof fn lemma_grows_trans(m1: ManagerView, m2: ManagerView, m3: ManagerView)
    requires
        grows(m1, m2),
        grows(m2, m3),
    ensures
        grows(m1, m3),
{
    assert forall|b: int| 0 <= b < m1.batches.len() implies {
        let x = #[trigger] m1.batches[b];
        let y = m3.batches[b];
        y.pending_writes == x.pending_writes && y.pending_txs == x.pending_txs && y.was_processed
            == x.was_processed && y.was_persisted == x.was_persisted
    } by {
        assert(m2.batches[b] == m2.batches[b]);
    }
    assert forall|b: int| m1.batches.len() <= b < m3.batches.len() implies (#[trigger] m3.batches[b]).pending_writes
        == 0 && persisted_when_done(m3.batches[b]) by {
        if b < m2.batches.len() {
            assert(m2.batches[b].pending_writes == 0 && persisted_when_done(m2.batches[b]));
        }
    }
    assert forall|d: int| 0 <= d < m1.state_diffs.len() implies (#[trigger] m3.state_diffs[d]).batch
        == m1.state_diffs[d].batch by {
        assert(m2.state_diffs[d].batch == m1.state_diffs[d].batch);
    }
    assert forall|d: int| m1.state_diffs.len() <= d < m3.state_diffs.len() implies (#[trigger] m3.state_diffs[d]).batch
        < m3.batches.len() by {
        if d < m2.state_diffs.len() {
            assert(m2.state_diffs[d].batch < m2.batches.len());
        }
    }
    assert forall|a: int| 0 <= a < m1.accesses.len() implies (#[trigger] m3.accesses[a]).state_diff
        == m1.accesses[a].state_diff by {
        assert(m2.accesses[a].state_diff == m1.accesses[a].state_diff);
    }
    assert forall|a: int| m1.accesses.len() <= a < m3.accesses.len() implies (#[trigger] m3.accesses[a]).state_diff
        < m3.state_diffs.len() by {
        if a < m2.accesses.len() {
            assert(m2.accesses[a].state_diff < m2.state_diffs.len());
        }
    }
}

/// What publishing keeps: the sizes, the batch of every state diff and the state diff of
/// every access; the storage queue only grows.
pub open spec fn publish_sizes(m: ManagerView, m2: ManagerView) -> bool {
    &&& m2.batches.len() == m.batches.len()
    &&& m2.state_diffs.len() == m.state_diffs.len()
    &&& forall|d: int| 0 <= d < m.state_diffs.len() ==> (#[trigger] m2.state_diffs[d]).batch == m.state_diffs[d].batch
    &&& m2.accesses.len() == m.accesses.len()
    &&& forall|a: int| 0 <= a < m.accesses.len() ==> (#[trigger] m2.accesses[a]).state_diff == m.accesses[a].state_diff
    &&& m2.writes.len() >= m.writes.len()
}

proof fn lemma_publish_sizes_trans(m1: ManagerView, m2: ManagerView, m3: ManagerView)
    requires
        publish_sizes(m1, m2),
        publish_sizes(m2, m3),
    ensures
        publish_sizes(m1, m3),
{
    assert forall|d: int| 0 <= d < m1.state_diffs.len() implies (#[trigger] m3.state_diffs[d]).batch
        == m1.state_diffs[d].batch by {
        assert(m2.state_diffs[d].batch == m1.state_diffs[d].batch);
    }
    assert forall|a: int| 0 <= a < m1.accesses.len() implies (#[trigger] m3.accesses[a]).state_diff
        == m1.accesses[a].state_diff by {
        assert(m2.accesses[a].state_diff == m1.accesses[a].state_diff);
    }
}

/// Handing the state diff `d` of batch `b` to storage keeps the count.
proof fn lemma_submit_counted(m: ManagerView, d: usize, max_len: int)
    requires
        writes_counted(m),
        d < m.state_diffs.len(),
        max_len < i64::MAX,
        !was_canceled(m, m.state_diffs[d as int].batch as int) ==> m.writes.len() + 1 <= max_len,
    ensures
        writes_counted(submit_write(m, m.state_diffs[d as int].batch as int, WriteView::StateDiff(d))),
        publish_sizes(m, submit_write(m, m.state_diffs[d as int].batch as int, WriteView::StateDiff(d))),
        submit_write(m, m.state_diffs[d as int].batch as int, WriteView::StateDiff(d)).writes.len() <= m.writes.len() + 1,
{
    let bb = m.state_diffs[d as int].batch as int;
    let m2 = submit_write(m, bb, WriteView::StateDiff(d));
    if !was_canceled(m, bb) {
        let x = m.batches[bb];
        lemma_queued_bound(m.writes, m.state_diffs, bb);
        assert(x.pending_writes == queued(m.writes, m.state_diffs, bb));
        assert forall|b: int| 0 <= b < m2.batches.len() implies (#[trigger] m2.batches[b]).pending_writes == queued(
            m2.writes,
            m2.state_diffs,
            b,
        ) && persisted_when_done(m2.batches[b]) by {
            lemma_queued_push(m.writes, m.state_diffs, b, WriteView::StateDiff(d));
            assert(m.batches[b].pending_writes == queued(m.writes, m.state_diffs, b));
        }
        assert forall|i: int| 0 <= i < m2.writes.len() implies (#[trigger] m2.writes[i] matches WriteView::StateDiff(d2)
            ==> d2 < m2.state_diffs.len()) by {
            if i < m.writes.len() {
                assert(m2.writes[i] == m.writes[i]);
            }
        }
        assert forall|d2: int| 0 <= d2 < m.state_diffs.len() implies (#[trigger] m2.state_diffs[d2]).batch
            == m.state_diffs[d2].batch by {}
    }
}

/// Publishing a read state keeps the counts.
proof fn lemma_read_counted(m: ManagerView, a: int, st: VersionedStateView)
    requires
        writes_counted(m),
        set_read_state(m, a, st).writes.len() < i64::MAX,
    ensures
        writes_counted(set_read_state(m, a, st)),
        publish_sizes(m, set_read_state(m, a, st)),
    decreases m.accesses.len() - a, 1int,
{
    lemma_publish_len(m, a, st, true);
    if !(0 <= a < m.accesses.len()) || m.accesses[a].read_state is Some {
        return;
    }
    let x = m.accesses[a];
    let m1 = set_access(m, a, AccessView { read_state: Some(st), prev: None, ..x });
    assert(grows(m, m1));
    lemma_grows(m, m1);
    let m2 = if x.is_batch_head {
        let d = x.state_diff as int;
        set_diff(m1, d, StateDiffView { read_state: Some(st), ..m1.state_diffs[d] })
    } else {
        m1
    };
    assert(grows(m1, m2));
    lemma_grows(m1, m2);
    lemma_grows_trans(m, m1, m2);
    let m3 = if x.metadata.access_type == AccessType::Read {
        set_written_state(m2, a, st)
    } else {
        m2
    };
    let m4 = decrease_pending_resources(m3, x.tx as int);
    assert(set_read_state(m, a, st) == m4);
    assert(m4.writes == m3.writes);
    if x.metadata.access_type == AccessType::Read {
        lemma_written_counted(m2, a, st);
    }
    assert(grows(m3, m4));
    lemma_grows(m3, m4);
    assert(publish_sizes(m, m2));
    assert(publish_sizes(m2, m3));
    assert(publish_sizes(m3, m4));
    lemma_publish_sizes_trans(m, m2, m3);
    lemma_publish_sizes_trans(m, m3, m4);
}

/// Publishing a written state keeps the counts.
proof fn lemma_written_counted(m: ManagerView, a: int, st: VersionedStateView)
    requires
        writes_counted(m),
        set_written_state(m, a, st).writes.len() < i64::MAX,
    ensures
        writes_counted(set_written_state(m, a, st)),
        publish_sizes(m, set_written_state(m, a, st)),
    decreases m.accesses.len() - a, 0int,
{
    lemma_publish_len(m, a, st, false);
    if !(0 <= a < m.accesses.len()) || m.accesses[a].written_state is Some {
        return;
    }
    let x = m.accesses[a];
    let m1 = set_access(m, a, AccessView { written_state: Some(st), ..x });
    assert(grows(m, m1));
    lemma_grows(m, m1);
    let m2 = if x.is_batch_tail {
        let d = x.state_diff as int;
        let m1b = set_diff(m1, d, StateDiffView { written_state: Some(st), ..m1.state_diffs[d] });
        assert(grows(m1, m1b));
        lemma_grows(m1, m1b);
        let m2s = submit_write(m1b, m1b.state_diffs[d].batch as int, WriteView::StateDiff(x.state_diff));
        if let Some(n) = x.next {
            if a < n < m2s.accesses.len() {
                lemma_publish_len(m2s, n as int, st, true);
            }
        }
        assert(m2s.writes.len() <= set_written_state(m, a, st).writes.len());
        lemma_submit_counted(m1b, x.state_diff, set_written_state(m, a, st).writes.len() as int);
        m2s
    } else {
        m1
    };
    let m3 = match x.next {
        Some(n) => if a < n < m2.accesses.len() {
            set_read_state(m2, n as int, st)
        } else {
            m2
        },
        None => m2,
    };
    assert(set_written_state(m, a, st) == m3);
    assert(publish_sizes(m, m1));
    if x.is_batch_tail {
        let d = x.state_diff as int;
        let m1b = set_diff(m1, d, StateDiffView { written_state: Some(st), ..m1.state_diffs[d] });
        assert(publish_sizes(m1, m1b));
        lemma_publish_sizes_trans(m1, m1b, m2);
    }
    lemma_publish_sizes_trans(m, m1, m2);
    if let Some(n) = x.next {
        if a < n < m2.accesses.len() {
            lemma_read_counted(m2, n as int, st);
            lemma_publish_sizes_trans(m, m2, m3);
        }
    }
}

/// Publishing never shortens the storage queue.
proof fn lemma_publish_len(m: ManagerView, a: int, st: VersionedStateView, read: bool)
    ensures
        m.writes.len() <= (if read { set_read_state(m, a, st) } else { set_written_state(m, a, st) }).writes.len(),
    decreases m.accesses.len() - a, if read { 1int } else { 0int },
{
    if !(0 <= a < m.accesses.len()) {
        return;
    }
    let x = m.accesses[a];
    if read {
        if x.read_state is None {
            let m1 = set_access(m, a, AccessView { read_state: Some(st), prev: None, ..x });
            let m2 = if x.is_batch_head {
                let d = x.state_diff as int;
                set_diff(m1, d, StateDiffView { read_state: Some(st), ..m1.state_diffs[d] })
            } else {
                m1
            };
            if x.metadata.access_type == AccessType::Read {
                lemma_publish_len(m2, a, st, false);
            }
        }
    } else {
        if x.written_state is None {
            let m1 = set_access(m, a, AccessView { written_state: Some(st), ..x });
            let m2 = if x.is_batch_tail {
                let d = x.state_diff as int;
                let m1b = set_diff(m1, d, StateDiffView { written_state: Some(st), ..m1.state_diffs[d] });
                submit_write(m1b, m1b.state_diffs[d].batch as int, WriteView::StateDiff(x.state_diff))
            } else {
                m1
            };
            if let Some(n) = x.next {
                if a < n < m2.accesses.len() {
                    lemma_publish_len(m2, n as int, st, true);
                }
            }
        }
    }
}


/// Every resource's last access exists.
pub open spec fn resources_in_range(m: ManagerView) -> bool {
    forall|id: u64| #[trigger] m.resources.contains_key(id) ==> m.resources[id] < m.accesses.len()
}

proof fn lemma_add_access_counted(m: ManagerView, t: int, meta: AccessMetadata)
    requires
        writes_counted(m),
        resources_in_range(m),
        0 <= t < m.txs.len(),
        m.txs[t].batch < m.batches.len(),
    ensures
        grows(m, add_access(m, t, meta)),
        writes_counted(add_access(m, t, meta)),
        resources_in_range(add_access(m, t, meta)),
        add_access(m, t, meta).txs.len() == m.txs.len(),
        add_access(m, t, meta).txs[t].batch == m.txs[t].batch,
        add_access(m, t, meta).batches.len() == m.batches.len(),
{
    let r = add_access(m, t, meta);
    let b = m.txs[t].batch;
    let a = m.accesses.len();
    let last: Option<usize> = if m.resources.contains_key(meta.id) {
        Some(m.resources[meta.id])
    } else {
        None
    };
    let same_batch = match last {
        Some(p) => m.txs[m.accesses[p as int].tx as int].batch == b,
        None => false,
    };
    if same_batch {
        assert(m.accesses[last->0 as int].state_diff < m.state_diffs.len());
    }
    assert(r.accesses.len() == a + 1);
    assert forall|x: int| 0 <= x < m.accesses.len() implies (#[trigger] r.accesses[x]).state_diff
        == m.accesses[x].state_diff by {}
    assert forall|d: int| 0 <= d < m.state_diffs.len() implies (#[trigger] r.state_diffs[d]).batch
        == m.state_diffs[d].batch by {}
    assert forall|x: int| 0 <= x < m.batches.len() implies {
        let u = #[trigger] m.batches[x];
        let v = r.batches[x];
        v.pending_writes == u.pending_writes && v.pending_txs == u.pending_txs && v.was_processed
            == u.was_processed && v.was_persisted == u.was_persisted
    } by {}
    assert(grows(m, r));
    lemma_grows(m, r);
    assert forall|id: u64| #[trigger] r.resources.contains_key(id) implies r.resources[id] < r.accesses.len() by {
        if id != meta.id {
            assert(m.resources.contains_key(id));
        }
    }
}

proof fn lemma_add_accesses_counted(m: ManagerView, t: int, metas: Seq<AccessMetadata>)
    requires
        writes_counted(m),
        resources_in_range(m),
        0 <= t < m.txs.len(),
        m.txs[t].batch < m.batches.len(),
    ensures
        grows(m, add_accesses(m, t, metas)),
        writes_counted(add_accesses(m, t, metas)),
        resources_in_range(add_accesses(m, t, metas)),
        add_accesses(m, t, metas).txs.len() == m.txs.len(),
        add_accesses(m, t, metas).txs[t].batch == m.txs[t].batch,
        add_accesses(m, t, metas).batches.len() == m.batches.len(),
    decreases metas.len(),
{
    if metas.len() > 0 {
        let inner = add_accesses(m, t, metas.drop_last());
        lemma_add_accesses_counted(m, t, metas.drop_last());
        lemma_add_access_counted(inner, t, metas.last());
        lemma_grows_trans(m, inner, add_accesses(m, t, metas));
    } else {
        assert(grows(m, m));
    }
}

proof fn lemma_add_tx_counted(m: ManagerView, b: int, metas: Seq<AccessMetadata>)
    requires
        writes_counted(m),
        resources_in_range(m),
        0 <= b < m.batches.len(),
    ensures
        grows(m, add_tx(m, b, metas)),
        writes_counted(add_tx(m, b, metas)),
        resources_in_range(add_tx(m, b, metas)),
        add_tx(m, b, metas).batches.len() == m.batches.len(),
{
    let t = m.txs.len() as int;
    let m1 = ManagerView {
        txs: m.txs.push(TxView { batch: b as usize, resources: Seq::empty(), pending_resources: 0 }),
        ..m
    };
    assert(grows(m, m1));
    lemma_grows(m, m1);
    let m2 = add_accesses(m1, t, metas);
    lemma_add_accesses_counted(m1, t, metas);
    lemma_grows_trans(m, m1, m2);
    let m3 = set_tx(m2, t, TxView { pending_resources: metas.len() as u64, ..m2.txs[t] });
    assert(grows(m2, m3));
    lemma_grows_trans(m, m2, m3);
    let m4 = set_batch(m3, b, BatchView { txs: m3.batches[b].txs.push(t as usize), ..m3.batches[b] });
    assert(grows(m3, m4));
    lemma_grows_trans(m, m3, m4);
    assert(m4 == add_tx(m, b, metas));
    lemma_grows(m, m4);
}

proof fn lemma_add_txs_counted(m: ManagerView, b: int, txs: Seq<Seq<AccessMetadata>>)
    requires
        writes_counted(m),
        resources_in_range(m),
        0 <= b < m.batches.len(),
    ensures
        grows(m, add_txs(m, b, txs)),
        writes_counted(add_txs(m, b, txs)),
        resources_in_range(add_txs(m, b, txs)),
        add_txs(m, b, txs).batches.len() == m.batches.len(),
    decreases txs.len(),
{
    if txs.len() > 0 {
        let inner = add_txs(m, b, txs.drop_last());
        lemma_add_txs_counted(m, b, txs.drop_last());
        lemma_add_tx_counted(inner, b, txs.last());
        lemma_grows_trans(m, inner, add_txs(m, b, txs));
    } else {
        assert(grows(m, m));
    }
}

proof fn lemma_connect_len(m: ManagerView, a: int)
    ensures
        m.writes.len() <= connect(m, a).writes.len(),
{
    if let Some(p) = m.accesses[a].prev {
        let m1 = set_access(m, p as int, AccessView { next: Some(a as usize), ..m.accesses[p as int] });
        if let Some(w) = m1.accesses[p as int].written_state {
            lemma_publish_len(m1, a, w, true);
        }
    }
}

proof fn lemma_connect_counted(m: ManagerView, a: int)
    requires
        writes_counted(m),
        connect(m, a).writes.len() < i64::MAX,
    ensures
        writes_counted(connect(m, a)),
{
    match m.accesses[a].prev {
        Some(p) => {
            let m1 = set_access(m, p as int, AccessView { next: Some(a as usize), ..m.accesses[p as int] });
            assert(grows(m, m1));
            lemma_grows(m, m1);
            if let Some(w) = m1.accesses[p as int].written_state {
                lemma_read_counted(m1, a, w);
            }
        },
        None => {
            let m1 = ManagerView { reads: m.reads.push(crate::manager::ReadView::LatestData(a as usize)), ..m };
            assert(grows(m, m1));
            lemma_grows(m, m1);
        },
    }
}

proof fn lemma_connect_range_counted(m: ManagerView, lo: int, hi: int)
    requires
        writes_counted(m),
        connect_range(m, lo, hi).writes.len() < i64::MAX,
    ensures
        writes_counted(connect_range(m, lo, hi)),
    decreases hi - lo,
{
    if lo < hi {
        let inner = connect_range(m, lo, hi - 1);
        lemma_connect_len(inner, hi - 1);
        lemma_connect_range_counted(m, lo, hi - 1);
        lemma_connect_counted(inner, hi - 1);
    }
}

/// Law: scheduling a batch keeps every batch's count of pending writes exact, and a
/// processed batch with nothing pending persisted.
pub proof fn lemma_schedule_counted(m: ManagerView, txs: Seq<Seq<AccessMetadata>>)
    requires
        wf_view(m),
        writes_counted(m),
        schedule(m, txs).writes.len() < i64::MAX,
    ensures
        writes_counted(schedule(m, txs)),
{
    let c = m.longest_chain as int;
    let index = m.chains[c].last_batch_index;
    let m1 = ManagerView {
        chains: m.chains.update(c, ChainView { last_batch_index: crate::chain::wrapping_inc(index), ..m.chains[c] }),
        ..m
    };
    let b = m1.batches.len();
    let m2 = ManagerView {
        batches: m1.batches.push(
            BatchView {
                chain: m.longest_chain,
                index,
                txs: Seq::empty(),
                state_diffs: Seq::empty(),
                available_txs: Seq::empty(),
                pending_txs: txs.len() as u64,
                pending_writes: 0,
                was_processed: false,
                was_persisted: false,
                was_committed: false,
            },
        ),
        ..m1
    };
    assert(grows(m, m2));
    lemma_grows(m, m2);
    assert(resources_in_range(m2)) by {
        assert forall|id: u64| #[trigger] m2.resources.contains_key(id) implies m2.resources[id] < m2.accesses.len() by {
            assert(m.resources.contains_key(id));
        }
    }
    let m3 = add_txs(m2, b as int, txs);
    lemma_add_txs_counted(m2, b as int, txs);
    assert(schedule(m, txs) == connect_range(m3, m.accesses.len() as int, m3.accesses.len() as int));
    lemma_connect_range_counted(m3, m.accesses.len() as int, m3.accesses.len() as int);
}


/// Law: a new runtime, over any store, counts its pending writes exactly.
pub proof fn lemma_new_counted(store: StoreView)
    ensures
        writes_counted(
            ManagerView {
                chains: seq![ChainView { last_batch_index: 0, rollback_threshold: u64::MAX }],
                longest_chain: 0,
                resources: Map::empty(),
                accesses: Seq::empty(),
                txs: Seq::empty(),
                state_diffs: Seq::empty(),
                batches: Seq::empty(),
                store,
                reads: Seq::empty(),
                writes: Seq::empty(),
            },
        ),
{
}

/// Law: serving a storage read keeps every batch's count of pending writes exact, and a
/// processed batch with nothing pending persisted.
pub proof fn lemma_process_read_counted(m: ManagerView)
    requires
        writes_counted(m),
        m.reads.len() > 0,
        process_read(m).writes.len() < i64::MAX,
    ensures
        writes_counted(process_read(m)),
{
    let m1 = ManagerView { reads: m.reads.drop_first(), ..m };
    assert(grows(m, m1));
    lemma_grows(m, m1);
    match m.reads[0] {
        crate::manager::ReadView::LatestData(a) => {
            lemma_read_counted(m1, a as int, crate::versioned_state::latest_state(m.store, m.accesses[a as int].metadata.id));
        },
    }
}

proof fn lemma_finish_counted(m: ManagerView, hs: Seq<AccessHandleView>, ok: bool)
    requires
        writes_counted(m),
        finish_handles(m, hs, ok).writes.len() < i64::MAX,
    ensures
        writes_counted(finish_handles(m, hs, ok)),
    decreases hs.len(),
{
    if hs.len() > 0 {
        let inner = finish_handles(m, hs.drop_last(), ok);
        let a = hs.last().access as int;
        let st = if ok {
            hs.last().state
        } else {
            inner.accesses[a].read_state->0
        };
        lemma_publish_len(inner, a, st, false);
        lemma_finish_counted(m, hs.drop_last(), ok);
        if inner.accesses[a].metadata.access_type == AccessType::Write {
            lemma_written_counted(inner, a, st);
        }
    }
}

/// Law: executing a transaction keeps every batch's count of pending writes exact, and a
/// processed batch with nothing pending persisted, whether its last transaction or its last
/// write finished last.
pub proof fn lemma_execute_counted(m: ManagerView, t: int, hs: Seq<AccessHandleView>, ok: bool)
    requires
        writes_counted(m),
        execute(m, t, hs, ok).writes.len() < i64::MAX,
    ensures
        writes_counted(execute(m, t, hs, ok)),
{
    let m1 = finish_handles(m, hs, ok);
    lemma_finish_counted(m, hs, ok);
    let b = m.txs[t].batch as int;
    let m2 = decrease_pending_txs(m1, b);
    if 0 <= b < m1.batches.len() {
        lemma_done_batch_persisted(m1, b, WriteView::CommitBatch(0));
        assert forall|x: int| 0 <= x < m2.batches.len() implies (#[trigger] m2.batches[x]).pending_writes == queued(
            m2.writes,
            m2.state_diffs,
            x,
        ) && persisted_when_done(m2.batches[x]) by {
            assert(m1.batches[x].pending_writes == queued(m1.writes, m1.state_diffs, x));
        }
    }
}

/// Law: storage finishing its first write keeps every batch's count of pending writes
/// exact, and a processed batch with nothing pending persisted, whatever store results: a
/// state diff counts down its batch, a commit marks its batch committed, a rollback changes
/// only the store.
pub proof fn lemma_process_write_counted(m: ManagerView, s: StoreView)
    requires
        writes_counted(m),
        m.writes.len() > 0,
    ensures
        match m.writes[0] {
            WriteView::StateDiff(d) => writes_counted(
                decrease_pending_writes(with_store(pop_write(m), s), m.state_diffs[d as int].batch as int),
            ),
            WriteView::CommitBatch(b) => {
                let m2 = with_store(pop_write(m), s);
                writes_counted(set_batch(m2, b as int, BatchView { was_committed: true, ..m2.batches[b as int] }))
            },
            WriteView::Rollback { .. } => writes_counted(with_store(pop_write(m), s)),
        },
{
    let m1 = with_store(pop_write(m), s);
    let ws = m.writes;
    assert(ws.drop_first() == m1.writes);
    assert forall|i: int| 0 <= i < m1.writes.len() implies (#[trigger] m1.writes[i] matches WriteView::StateDiff(d)
        ==> d < m1.state_diffs.len()) by {
        assert(m1.writes[i] == ws[i + 1]);
    }
    match ws[0] {
        WriteView::StateDiff(d) => {
            let bb = m.state_diffs[d as int].batch as int;
            let m2 = decrease_pending_writes(m1, bb);
            lemma_done_batch_persisted(m1, bb, WriteView::CommitBatch(0));
            assert forall|x: int| 0 <= x < m2.batches.len() implies (#[trigger] m2.batches[x]).pending_writes == queued(
                m2.writes,
                m2.state_diffs,
                x,
            ) && persisted_when_done(m2.batches[x]) by {
                assert(m.batches[x].pending_writes == queued(ws, m.state_diffs, x));
                assert(persisted_when_done(m.batches[x]));
                lemma_queued_bound(m1.writes, m.state_diffs, x);
            }
        },
        WriteView::CommitBatch(b) => {
            let m2 = set_batch(m1, b as int, BatchView { was_committed: true, ..m1.batches[b as int] });
            assert forall|x: int| 0 <= x < m2.batches.len() implies (#[trigger] m2.batches[x]).pending_writes == queued(
                m2.writes,
                m2.state_diffs,
                x,
            ) && persisted_when_done(m2.batches[x]) by {
                assert(m.batches[x].pending_writes == queued(ws, m.state_diffs, x));
                assert(persisted_when_done(m.batches[x]));
            }
        },
        WriteView::Rollback { .. } => {
            assert forall|x: int| 0 <= x < m1.batches.len() implies (#[trigger] m1.batches[x]).pending_writes == queued(
                m1.writes,
                m1.state_diffs,
                x,
            ) && persisted_when_done(m1.batches[x]) by {
                assert(m.batches[x].pending_writes == queued(ws, m.state_diffs, x));
            }
        },
    }
}

/// Law: handing the commit of a batch to storage keeps every batch's count of pending writes
/// exact, and a processed batch with nothing pending persisted.
pub proof fn lemma_schedule_commit_counted(m: ManagerView, b: int)
    requires
        writes_counted(m),
    ensures
        writes_counted(schedule_commit(m, b)),
{
    let ws = m.writes;
    let w = WriteView::CommitBatch(b as usize);
    assert forall|x: int| #![trigger m.batches[x]] 0 <= x < m.batches.len() implies queued(ws.push(w), m.state_diffs, x)
        == queued(ws, m.state_diffs, x) by {
        lemma_queued_push(ws, m.state_diffs, x, w);
    }
    let m1 = schedule_commit(m, b);
    assert forall|i: int| 0 <= i < m1.writes.len() implies (#[trigger] m1.writes[i] matches WriteView::StateDiff(d)
        ==> d < m1.state_diffs.len()) by {
        if i < ws.len() {
            assert(m1.writes[i] == ws[i]);
        }
    }
}

/// Law: rolling back keeps every batch's count of pending writes exact, and a processed
/// batch with nothing pending persisted; the rollback it queues counts for no batch.
pub proof fn lemma_rollback_to_counted(m: ManagerView, target: u64)
    requires
        writes_counted(m),
    ensures
        writes_counted(rollback_to(m, target)),
{
    let ws = m.writes;
    let m2 = rollback_to(m, target);
    if m2 != m {
        let upper = crate::manager::last_scheduled(m)->0;
        let r = WriteView::Rollback { lower_bound: (target + 1) as u64, upper_bound: upper };
        assert(m2.writes == ws.push(r));
        assert forall|x: int| #![trigger m.batches[x]] 0 <= x < m.batches.len() implies queued(ws.push(r), m.state_diffs, x)
            == queued(ws, m.state_diffs, x) by {
            lemma_queued_push(ws, m.state_diffs, x, r);
        }
        assert forall|i: int| 0 <= i < m2.writes.len() implies (#[trigger] m2.writes[i] matches WriteView::StateDiff(d)
            ==> d < m2.state_diffs.len()) by {
            if i < ws.len() {
                assert(m2.writes[i] == ws[i]);
            }
        }
    }
}

/// Law: taking transactions out of a batch's available ones, as a steal does, keeps every
/// batch's count of pending writes exact, and a processed batch with nothing pending
/// persisted.
pub proof fn lemma_steal_counted(m: ManagerView, b: int, available: Seq<usize>)
    requires
        writes_counted(m),
    ensures
        writes_counted(set_batch(m, b, BatchView { available_txs: available, ..m.batches[b] })),
{
    let m3 = set_batch(m, b, BatchView { available_txs: available, ..m.batches[b] });
    assert(grows(m, m3));
    lemma_grows(m, m3);
}

/// `m2` has the batches of `m`, with the same transaction counts and flags.
pub open spec fn flags_kept(m: ManagerView, m2: ManagerView) -> bool {
    &&& m2.batches.len() == m.batches.len()
    &&& forall|x: int|
        0 <= x < m.batches.len() ==> {
            let u = #[trigger] m.batches[x];
            let v = m2.batches[x];
            v.pending_txs == u.pending_txs && v.was_processed == u.was_processed && v.was_persisted == u.was_persisted
        }
}

proof fn lemma_flags_trans(m1: ManagerView, m2: ManagerView, m3: ManagerView)
    requires
        flags_kept(m1, m2),
        flags_kept(m2, m3),
    ensures
        flags_kept(m1, m3),
{
    assert forall|x: int| 0 <= x < m1.batches.len() implies {
        let u = #[trigger] m1.batches[x];
        let v = m3.batches[x];
        v.pending_txs == u.pending_txs && v.was_processed == u.was_processed && v.was_persisted == u.was_persisted
    } by {
        assert(m2.batches[x] == m2.batches[x]);
    }
}

/// Publishing states keeps every batch's transaction count and flags.
proof fn lemma_publish_flags(m: ManagerView, a: int, st: VersionedStateView, read: bool)
    ensures
        flags_kept(m, if read { set_read_state(m, a, st) } else { set_written_state(m, a, st) }),
    decreases m.accesses.len() - a, if read { 1int } else { 0int },
{
    if !(0 <= a < m.accesses.len()) {
        return;
    }
    let x = m.accesses[a];
    if read {
        if x.read_state is None {
            let m1 = set_access(m, a, AccessView { read_state: Some(st), prev: None, ..x });
            let m2 = if x.is_batch_head {
                let d = x.state_diff as int;
                set_diff(m1, d, StateDiffView { read_state: Some(st), ..m1.state_diffs[d] })
            } else {
                m1
            };
            assert(flags_kept(m, m2));
            let m3 = if x.metadata.access_type == AccessType::Read {
                set_written_state(m2, a, st)
            } else {
                m2
            };
            if x.metadata.access_type == AccessType::Read {
                lemma_publish_flags(m2, a, st, false);
                lemma_flags_trans(m, m2, m3);
            }
            let m4 = decrease_pending_resources(m3, x.tx as int);
            assert(flags_kept(m3, m4));
            lemma_flags_trans(m, m3, m4);
        }
    } else {
        if x.written_state is None {
            let m1 = set_access(m, a, AccessView { written_state: Some(st), ..x });
            let m2 = if x.is_batch_tail {
                let d = x.state_diff as int;
                let m1b = set_diff(m1, d, StateDiffView { written_state: Some(st), ..m1.state_diffs[d] });
                submit_write(m1b, m1b.state_diffs[d].batch as int, WriteView::StateDiff(x.state_diff))
            } else {
                m1
            };
            assert(flags_kept(m, m2));
            if let Some(n) = x.next {
                if a < n < m2.accesses.len() {
                    lemma_publish_flags(m2, n as int, st, true);
                    lemma_flags_trans(m, m2, set_read_state(m2, n as int, st));
                }
            }
        }
    }
}

proof fn lemma_finish_flags(m: ManagerView, hs: Seq<AccessHandleView>, ok: bool)
    ensures
        flags_kept(m, finish_handles(m, hs, ok)),
    decreases hs.len(),
{
    if hs.len() == 0 {
        assert(flags_kept(m, m));
    } else {
        let inner = finish_handles(m, hs.drop_last(), ok);
        lemma_finish_flags(m, hs.drop_last(), ok);
        let a = hs.last().access as int;
        let st = if ok {
            hs.last().state
        } else {
            inner.accesses[a].read_state->0
        };
        if inner.accesses[a].metadata.access_type == AccessType::Write {
            lemma_publish_flags(inner, a, st, false);
            lemma_flags_trans(m, inner, finish_handles(m, hs, ok));
        } else {
            lemma_flags_trans(m, inner, inner);
        }
    }
}

/// Law: executing transaction `t` marks no batch persisted but that of `t`, and that one only
/// when afterwards none of its transactions and none of its writes is pending.
pub proof fn lemma_execute_persists_only_when_done(m: ManagerView, t: int, hs: Seq<AccessHandleView>, ok: bool)
    ensures
        forall|x: int|
            0 <= x < m.batches.len() && (#[trigger] execute(m, t, hs, ok).batches[x]).was_persisted
                && !m.batches[x].was_persisted ==> x == m.txs[t].batch && execute(m, t, hs, ok).batches[x].pending_txs == 0
                && execute(m, t, hs, ok).batches[x].pending_writes == 0,
{
    let m1 = finish_handles(m, hs, ok);
    lemma_finish_flags(m, hs, ok);
    let b = m.txs[t].batch as int;
    let m2 = execute(m, t, hs, ok);
    assert(m2 == decrease_pending_txs(m1, b));
    assert forall|x: int|
        0 <= x < m.batches.len() && (#[trigger] m2.batches[x]).was_persisted && !m.batches[x].was_persisted implies x
        == m.txs[t].batch && m2.batches[x].pending_txs == 0 && m2.batches[x].pending_writes == 0 by {
        assert(m1.batches[x].was_persisted == m.batches[x].was_persisted);
        if x != b {
            assert(m2.batches[x] == m1.batches[x]);
        } else {
            crate::manager::lemma_persisted_only_when_done(m1, b);
        }
    }
}

} // verus!
