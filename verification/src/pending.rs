//! How many accesses each transaction still waits for.
//!
//! A transaction counts the accesses whose read state is not known yet; it becomes available
//! for execution when that count reaches zero. Every step of the runtime keeps the count
//! exact, so an available transaction always finds the read states of all its accesses.

use vstd::prelude::*;

use crate::access::{AccessMetadata, AccessType};
use crate::chain::ChainView;
use crate::manager::{
    decrease_pending_resources, decrease_pending_txs, decrease_pending_writes, execute, finish_handle,
    finish_handles, add_access, add_accesses, add_tx, add_txs, connect, connect_range, pop_write, schedule, process_read, push_available_tx, rollback_to, schedule_commit, set_access,
    set_batch, set_diff, set_read_state, set_tx, set_written_state, submit_write, tx_ready, with_store,
    AccessHandleView, AccessView, BatchView, TxView, ManagerView, ReadView, StateDiffView, WriteView,
};
use crate::store::StoreView;
use crate::versioned_state::{latest_state, VersionedStateView};

verus! {

/// How many of the accesses `rs` do not know their read state.
pub open spec fn unresolved(accesses: Seq<AccessView>, rs: Seq<usize>) -> nat
    decreases rs.len(),
{
    if rs.len() == 0 {
        0
    } else {
        unresolved(accesses, rs.drop_last()) + if accesses[rs.last() as int].read_state is None {
            1nat
        } else {
            0nat
        }
    }
}

/// Pending count of transaction `t` minus the accesses it really waits for.
pub open spec fn slack(m: ManagerView, t: int) -> int {
    m.txs[t].pending_resources as int - unresolved(m.accesses, m.txs[t].resources) as int
}

/// Each access belongs to the transaction that lists it, and a transaction lists each of its
/// accesses once.
pub open spec fn tx_links(m: ManagerView) -> bool {
    &&& m.accesses.len() <= usize::MAX
    &&& forall|a: int|
        0 <= a < m.accesses.len() ==> {
            let t = (#[trigger] m.accesses[a]).tx as int;
            &&& t < m.txs.len()
            &&& m.txs[t].resources.contains(a as usize)
        }
    &&& forall|t: int, i: int|
        0 <= t < m.txs.len() && 0 <= i < m.txs[t].resources.len() ==> {
            let a = #[trigger] m.txs[t].resources[i];
            &&& a < m.accesses.len()
            &&& m.accesses[a as int].tx == t
        }
    &&& forall|t: int, i: int, j: int|
        0 <= t < m.txs.len() && 0 <= i < j < m.txs[t].resources.len() ==> #[trigger] m.txs[t].resources[i]
            != #[trigger] m.txs[t].resources[j]
    &&& forall|t: int| 0 <= t < m.txs.len() ==> (#[trigger] m.txs[t]).batch < m.batches.len()
}

/// Every transaction that a batch offers for execution is ready.
pub open spec fn available_ready(m: ManagerView) -> bool {
    forall|b: int, i: int|
        0 <= b < m.batches.len() && 0 <= i < m.batches[b].available_txs.len() ==> {
            let t = #[trigger] m.batches[b].available_txs[i];
            &&& t < m.txs.len()
            &&& tx_ready(m, t as int)
        }
}

/// The pending count of every transaction is the number of its accesses that do not know
/// their read state, and every available transaction is ready.
pub open spec fn counts_exact(m: ManagerView) -> bool {
    &&& tx_links(m)
    &&& forall|t: int| 0 <= t < m.txs.len() ==> #[trigger] slack(m, t) == 0
    &&& available_ready(m)
}

// ---------------------------------------------------------------------------------------
// Counting

/// Accesses that keep whether they know their read state keep the count.
proof fn lemma_unresolved_frame(acc1: Seq<AccessView>, acc2: Seq<AccessView>, rs: Seq<usize>)
    requires
        forall|i: int|
            0 <= i < rs.len() ==> (acc1[#[trigger] rs[i] as int].read_state is None) == (
            acc2[rs[i] as int].read_state is None),
    ensures
        unresolved(acc1, rs) == unresolved(acc2, rs),
    decreases rs.len(),
{
    if rs.len() > 0 {
        let r = rs.drop_last();
        assert forall|i: int| 0 <= i < r.len() implies (acc1[#[trigger] r[i] as int].read_state is None) == (
        acc2[r[i] as int].read_state is None) by {
            assert(r[i] == rs[i]);
        }
        lemma_unresolved_frame(acc1, acc2, r);
        assert(rs.last() == rs[rs.len() - 1]);
    }
}

/// One access that is listed once learns its read state: one fewer is counted.
proof fn lemma_unresolved_resolve(acc1: Seq<AccessView>, acc2: Seq<AccessView>, rs: Seq<usize>, a: usize)
    requires
        acc1[a as int].read_state is None,
        acc2[a as int].read_state is Some,
        rs.contains(a),
        forall|i: int, j: int| 0 <= i < j < rs.len() ==> #[trigger] rs[i] != #[trigger] rs[j],
        forall|i: int|
            0 <= i < rs.len() && #[trigger] rs[i] != a ==> (acc1[rs[i] as int].read_state is None) == (
            acc2[rs[i] as int].read_state is None),
    ensures
        unresolved(acc2, rs) + 1 == unresolved(acc1, rs),
    decreases rs.len(),
{
    let r = rs.drop_last();
    let k = rs.len() - 1;
    assert(rs.last() == rs[k]);
    if rs[k] == a {
        assert forall|i: int| 0 <= i < r.len() implies (acc1[#[trigger] r[i] as int].read_state is None) == (
        acc2[r[i] as int].read_state is None) by {
            assert(r[i] == rs[i]);
            assert(rs[i] != rs[k]);
        }
        lemma_unresolved_frame(acc1, acc2, r);
    } else {
        let w = choose|i: int| 0 <= i < rs.len() && rs[i] == a;
        assert(w != k);
        assert(r[w] == a);
        assert forall|i: int, j: int| 0 <= i < j < r.len() implies #[trigger] r[i] != #[trigger] r[j] by {
            assert(r[i] == rs[i] && r[j] == rs[j]);
        }
        assert forall|i: int|
            0 <= i < r.len() && #[trigger] r[i] != a implies (acc1[r[i] as int].read_state is None) == (
            acc2[r[i] as int].read_state is None) by {
            assert(r[i] == rs[i]);
        }
        lemma_unresolved_resolve(acc1, acc2, r, a);
    }
}

/// Nothing is counted exactly when every access knows its read state.
proof fn lemma_unresolved_zero(acc: Seq<AccessView>, rs: Seq<usize>)
    ensures
        unresolved(acc, rs) == 0 <==> forall|i: int| 0 <= i < rs.len() ==> (#[trigger] acc[rs[i] as int]).read_state is Some,
    decreases rs.len(),
{
    if rs.len() > 0 {
        let r = rs.drop_last();
        lemma_unresolved_zero(acc, r);
        assert(rs.last() == rs[rs.len() - 1]);
        if unresolved(acc, rs) == 0 {
            assert forall|i: int| 0 <= i < rs.len() implies (#[trigger] acc[rs[i] as int]).read_state is Some by {
                if i < r.len() {
                    assert(r[i] == rs[i]);
                }
            }
        } else {
            if forall|i: int| 0 <= i < rs.len() ==> (#[trigger] acc[rs[i] as int]).read_state is Some {
                assert forall|i: int| 0 <= i < r.len() implies (#[trigger] acc[r[i] as int]).read_state is Some by {
                    assert(r[i] == rs[i]);
                }
                assert(acc[rs[rs.len() - 1] as int].read_state is Some);
            }
        }
    }
}


// ---------------------------------------------------------------------------------------
// Frames

/// `m2` keeps which transaction each access belongs to, which accesses and batch each
/// transaction has, and the number of accesses, transactions and batches of `m1`.
pub open spec fn same_links(m1: ManagerView, m2: ManagerView) -> bool {
    &&& m2.accesses.len() == m1.accesses.len()
    &&& m2.txs.len() == m1.txs.len()
    &&& m2.batches.len() == m1.batches.len()
    &&& forall|a: int| 0 <= a < m1.accesses.len() ==> (#[trigger] m2.accesses[a]).tx == m1.accesses[a].tx
    &&& forall|t: int|
        0 <= t < m1.txs.len() ==> (#[trigger] m2.txs[t]).resources == m1.txs[t].resources && m2.txs[t].batch
            == m1.txs[t].batch
}

/// No access of `m1` that knows its read state forgets it in `m2`.
pub open spec fn reads_grow(m1: ManagerView, m2: ManagerView) -> bool {
    forall|a: int|
        0 <= a < m1.accesses.len() && (#[trigger] m1.accesses[a]).read_state is Some ==> m2.accesses[a].read_state is Some
}

/// `m2` offers the same transactions for execution as `m1`.
pub open spec fn offers_same(m1: ManagerView, m2: ManagerView) -> bool {
    forall|b: int| 0 <= b < m1.batches.len() ==> (#[trigger] m2.batches[b]).available_txs == m1.batches[b].available_txs
}

/// The links depend only on what `same_links` keeps.
proof fn lemma_links_keep(m1: ManagerView, m2: ManagerView)
    requires
        tx_links(m1),
        same_links(m1, m2),
    ensures
        tx_links(m2),
{
    assert forall|a: int| 0 <= a < m2.accesses.len() implies {
        let t = (#[trigger] m2.accesses[a]).tx as int;
        &&& t < m2.txs.len()
        &&& m2.txs[t].resources.contains(a as usize)
    } by {
        let t = m1.accesses[a].tx as int;
        assert(m2.txs[t].resources == m1.txs[t].resources);
    }
    assert forall|t: int, i: int| 0 <= t < m2.txs.len() && 0 <= i < m2.txs[t].resources.len() implies {
        let a = #[trigger] m2.txs[t].resources[i];
        &&& a < m2.accesses.len()
        &&& m2.accesses[a as int].tx == t
    } by {
        assert(m2.txs[t].resources == m1.txs[t].resources);
        let a = m1.txs[t].resources[i];
        assert(m2.accesses[a as int].tx == m1.accesses[a as int].tx);
    }
    assert forall|t: int, i: int, j: int|
        0 <= t < m2.txs.len() && 0 <= i < j < m2.txs[t].resources.len() implies #[trigger] m2.txs[t].resources[i]
        != #[trigger] m2.txs[t].resources[j] by {
        assert(m2.txs[t].resources == m1.txs[t].resources);
    }
    assert forall|t: int| 0 <= t < m2.txs.len() implies (#[trigger] m2.txs[t]).batch < m2.batches.len() by {
        assert(m2.txs[t].batch == m1.txs[t].batch);
    }
}

/// `same_links` and `reads_grow` compose.
proof fn lemma_links_trans(m1: ManagerView, m2: ManagerView, m3: ManagerView)
    requires
        same_links(m1, m2),
        same_links(m2, m3),
    ensures
        same_links(m1, m3),
        reads_grow(m1, m2) && reads_grow(m2, m3) ==> reads_grow(m1, m3),
{
    assert forall|a: int| 0 <= a < m1.accesses.len() implies (#[trigger] m3.accesses[a]).tx == m1.accesses[a].tx by {
        assert(m2.accesses[a].tx == m1.accesses[a].tx);
    }
    assert forall|t: int| 0 <= t < m1.txs.len() implies (#[trigger] m3.txs[t]).resources == m1.txs[t].resources
        && m3.txs[t].batch == m1.txs[t].batch by {
        assert(m2.txs[t].resources == m1.txs[t].resources);
    }
    if reads_grow(m1, m2) && reads_grow(m2, m3) {
        assert forall|a: int|
            0 <= a < m1.accesses.len() && (#[trigger] m1.accesses[a]).read_state is Some implies m3.accesses[a].read_state is Some by {
            assert(m2.accesses[a].read_state is Some);
        }
    }
}

/// Offered transactions stay ready while their accesses only learn read states.
proof fn lemma_ready_keep(m1: ManagerView, m2: ManagerView)
    requires
        same_links(m1, m2),
        reads_grow(m1, m2),
        offers_same(m1, m2),
        tx_links(m1),
        available_ready(m1),
    ensures
        available_ready(m2),
{
    assert forall|b: int, i: int| 0 <= b < m2.batches.len() && 0 <= i < m2.batches[b].available_txs.len() implies {
        let t = #[trigger] m2.batches[b].available_txs[i];
        &&& t < m2.txs.len()
        &&& tx_ready(m2, t as int)
    } by {
        assert(m2.batches[b].available_txs == m1.batches[b].available_txs);
        let t = m1.batches[b].available_txs[i] as int;
        assert(tx_ready(m1, t));
        assert(m2.txs[t].resources == m1.txs[t].resources);
        assert forall|j: int| 0 <= j < m2.txs[t].resources.len() implies (#[trigger] m2.accesses[m2.txs[t].resources[j] as int]).read_state is Some by {
            let a = m1.txs[t].resources[j] as int;
            assert(m1.accesses[a].read_state is Some);
        }
    }
}

/// With the read states of `m1`, `m2` has the slack of `m1` for every transaction whose
/// accesses and pending count are unchanged.
proof fn lemma_slack_frame(m1: ManagerView, m2: ManagerView, t: int)
    requires
        0 <= t < m1.txs.len(),
        0 <= t < m2.txs.len(),
        m2.txs[t].resources == m1.txs[t].resources,
        m2.txs[t].pending_resources == m1.txs[t].pending_resources,
        forall|a: int| 0 <= a < m1.accesses.len() ==> (#[trigger] m2.accesses[a]).read_state == m1.accesses[a].read_state,
        forall|i: int| 0 <= i < m1.txs[t].resources.len() ==> #[trigger] m1.txs[t].resources[i] < m1.accesses.len(),
    ensures
        slack(m2, t) == slack(m1, t),
{
    let rs = m1.txs[t].resources;
    assert forall|i: int| 0 <= i < rs.len() implies (m1.accesses[#[trigger] rs[i] as int].read_state is None) == (
    m2.accesses[rs[i] as int].read_state is None) by {}
    lemma_unresolved_frame(m1.accesses, m2.accesses, rs);
}


// ---------------------------------------------------------------------------------------
// Publishing states

/// What publishing a state keeps: the links, the read states already known, the slack of
/// every transaction and the readiness of every offered transaction.
pub open spec fn publish_keeps(m: ManagerView, m2: ManagerView) -> bool {
    &&& same_links(m, m2)
    &&& reads_grow(m, m2)
    &&& tx_links(m2)
    &&& available_ready(m2)
    &&& forall|t: int| 0 <= t < m.txs.len() ==> #[trigger] slack(m2, t) == slack(m, t)
}

/// `publish_keeps` composes.
proof fn lemma_publish_keeps_trans(m1: ManagerView, m2: ManagerView, m3: ManagerView)
    requires
        publish_keeps(m1, m2),
        publish_keeps(m2, m3),
    ensures
        publish_keeps(m1, m3),
{
    lemma_links_trans(m1, m2, m3);
    assert forall|t: int| 0 <= t < m1.txs.len() implies #[trigger] slack(m3, t) == slack(m1, t) by {
        assert(slack(m2, t) == slack(m1, t));
    }
}

/// Access `a` learns its read state: its transaction waits for one access fewer.
proof fn lemma_resolve_step(m: ManagerView, a: int, st: VersionedStateView)
    requires
        tx_links(m),
        available_ready(m),
        0 <= a < m.accesses.len(),
        m.accesses[a].read_state is None,
    ensures
        ({
            let x = m.accesses[a];
            let m1 = set_access(m, a, AccessView { read_state: Some(st), prev: None, ..x });
            &&& same_links(m, m1)
            &&& reads_grow(m, m1)
            &&& tx_links(m1)
            &&& available_ready(m1)
            &&& m1.txs == m.txs
            &&& m1.batches == m.batches
            &&& forall|t2: int|
                0 <= t2 < m.txs.len() ==> #[trigger] slack(m1, t2) == slack(m, t2) + if t2 == x.tx {
                    1int
                } else {
                    0int
                }
        }),
{
    let x = m.accesses[a];
    let t = x.tx as int;
    let m1 = set_access(m, a, AccessView { read_state: Some(st), prev: None, ..x });
    assert(same_links(m, m1));
    assert(reads_grow(m, m1));
    assert(offers_same(m, m1));
    lemma_links_keep(m, m1);
    lemma_ready_keep(m, m1);
    assert((a as usize) as int == a);
    assert forall|t2: int| 0 <= t2 < m.txs.len() implies #[trigger] slack(m1, t2) == slack(m, t2) + if t2 == t {
        1int
    } else {
        0int
    } by {
        let rs = m.txs[t2].resources;
        assert(m1.txs[t2] == m.txs[t2]);
        if t2 == t {
            assert forall|i: int, j: int| 0 <= i < j < rs.len() implies #[trigger] rs[i] != #[trigger] rs[j] by {}
            assert forall|i: int|
                0 <= i < rs.len() && #[trigger] rs[i] != a as usize implies (m.accesses[rs[i] as int].read_state is None) == (
                m1.accesses[rs[i] as int].read_state is None) by {}
            lemma_unresolved_resolve(m.accesses, m1.accesses, rs, a as usize);
        } else {
            assert forall|i: int| 0 <= i < rs.len() implies (m.accesses[#[trigger] rs[i] as int].read_state is None) == (
            m1.accesses[rs[i] as int].read_state is None) by {
                assert(m.accesses[rs[i] as int].tx == t2);
            }
            lemma_unresolved_frame(m.accesses, m1.accesses, rs);
        }
    }
}

/// Transaction `t` counts down; with the last access it becomes available, and is ready.
proof fn lemma_count_down_step(m: ManagerView, t: int)
    requires
        tx_links(m),
        available_ready(m),
        0 <= t < m.txs.len(),
        t <= usize::MAX,
        slack(m, t) >= 1,
    ensures
        ({
            let m2 = decrease_pending_resources(m, t);
            &&& same_links(m, m2)
            &&& reads_grow(m, m2)
            &&& tx_links(m2)
            &&& available_ready(m2)
            &&& m2.accesses == m.accesses
            &&& forall|t2: int|
                0 <= t2 < m.txs.len() ==> #[trigger] slack(m2, t2) == slack(m, t2) - if t2 == t {
                    1int
                } else {
                    0int
                }
        }),
{
    let p = m.txs[t].pending_resources;
    let m1 = set_tx(m, t, crate::manager::TxView { pending_resources: crate::manager::wrapping_dec(p), ..m.txs[t] });
    let m2 = decrease_pending_resources(m, t);
    assert(m2 == if p == 1 { push_available_tx(m1, t) } else { m1 });
    assert(same_links(m, m1));
    assert(reads_grow(m, m1));
    assert(offers_same(m, m1));
    lemma_links_keep(m, m1);
    lemma_ready_keep(m, m1);
    assert forall|t2: int| 0 <= t2 < m.txs.len() implies #[trigger] slack(m1, t2) == slack(m, t2) - if t2 == t {
        1int
    } else {
        0int
    } by {
        if t2 != t {
            assert(m1.txs[t2] == m.txs[t2]);
        }
    }
    if p == 1 {
        let b = m1.txs[t].batch as int;
        assert(unresolved(m1.accesses, m1.txs[t].resources) == 0);
        lemma_unresolved_zero(m1.accesses, m1.txs[t].resources);
        assert(tx_ready(m1, t));
        assert(m2.accesses == m1.accesses && m2.txs == m1.txs);
        assert(same_links(m1, m2));
        lemma_links_keep(m1, m2);
        assert forall|b2: int, i: int| 0 <= b2 < m2.batches.len() && 0 <= i < m2.batches[b2].available_txs.len() implies {
            let t3 = #[trigger] m2.batches[b2].available_txs[i];
            &&& t3 < m2.txs.len()
            &&& tx_ready(m2, t3 as int)
        } by {
            if b2 == b && i == m1.batches[b].available_txs.len() {
                assert(m2.batches[b2].available_txs[i] == t as usize);
            } else {
                assert(m2.batches[b2].available_txs[i] == m1.batches[b2].available_txs[i]);
            }
        }
        assert forall|t2: int| 0 <= t2 < m.txs.len() implies #[trigger] slack(m2, t2) == slack(m1, t2) by {}
        lemma_links_trans(m, m1, m2);
    }
}

/// The part of publishing a written state before the next access learns it.
proof fn lemma_written_step(m: ManagerView, a: int, st: VersionedStateView)
    requires
        tx_links(m),
        available_ready(m),
        0 <= a < m.accesses.len(),
    ensures
        ({
            let x = m.accesses[a];
            let m1 = set_access(m, a, AccessView { written_state: Some(st), ..x });
            let m2 = if x.is_batch_tail {
                let d = x.state_diff as int;
                let m1b = set_diff(m1, d, StateDiffView { written_state: Some(st), ..m1.state_diffs[d] });
                submit_write(m1b, m1b.state_diffs[d].batch as int, WriteView::StateDiff(x.state_diff))
            } else {
                m1
            };
            &&& publish_keeps(m, m2)
            &&& m2.accesses.len() == m.accesses.len()
        }),
{
    let x = m.accesses[a];
    let m1 = set_access(m, a, AccessView { written_state: Some(st), ..x });
    assert(same_links(m, m1));
    assert(reads_grow(m, m1));
    assert(offers_same(m, m1));
    lemma_links_keep(m, m1);
    lemma_ready_keep(m, m1);
    assert forall|t2: int| 0 <= t2 < m.txs.len() implies #[trigger] slack(m1, t2) == slack(m, t2) by {
        lemma_slack_frame(m, m1, t2);
    }
    let m2 = if x.is_batch_tail {
        let d = x.state_diff as int;
        let m1b = set_diff(m1, d, StateDiffView { written_state: Some(st), ..m1.state_diffs[d] });
        submit_write(m1b, m1b.state_diffs[d].batch as int, WriteView::StateDiff(x.state_diff))
    } else {
        m1
    };
    assert(m2.accesses == m1.accesses && m2.txs == m1.txs);
    assert(same_links(m1, m2));
    assert(reads_grow(m1, m2));
    assert(offers_same(m1, m2));
    lemma_links_keep(m1, m2);
    lemma_ready_keep(m1, m2);
    assert forall|t2: int| 0 <= t2 < m.txs.len() implies #[trigger] slack(m2, t2) == slack(m, t2) by {
        assert(slack(m1, t2) == slack(m, t2));
    }
    lemma_links_trans(m, m1, m2);
}

/// Publishing a read state keeps the links, the read states already known and the slack of
/// every transaction; a transaction that it makes available is ready.
proof fn lemma_read_counts(m: ManagerView, a: int, st: VersionedStateView)
    requires
        tx_links(m),
        available_ready(m),
        forall|t: int| 0 <= t < m.txs.len() ==> #[trigger] slack(m, t) >= 0,
    ensures
        publish_keeps(m, set_read_state(m, a, st)),
    decreases m.accesses.len() - a, 1int,
{
    if !(0 <= a < m.accesses.len()) || m.accesses[a].read_state is Some {
        lemma_links_trans(m, m, m);
        return;
    }
    let x = m.accesses[a];
    let t = x.tx as int;
    lemma_resolve_step(m, a, st);
    let m1 = set_access(m, a, AccessView { read_state: Some(st), prev: None, ..x });
    let m2 = if x.is_batch_head {
        let d = x.state_diff as int;
        set_diff(m1, d, StateDiffView { read_state: Some(st), ..m1.state_diffs[d] })
    } else {
        m1
    };
    assert(m2.accesses == m1.accesses && m2.txs == m1.txs && m2.batches == m1.batches);
    assert forall|t2: int| 0 <= t2 < m.txs.len() implies #[trigger] slack(m2, t2) == slack(m1, t2) by {}
    assert forall|t2: int| 0 <= t2 < m2.txs.len() implies #[trigger] slack(m2, t2) >= 0 by {
        assert(slack(m, t2) >= 0);
        assert(slack(m1, t2) == slack(m, t2) + if t2 == t { 1int } else { 0int });
    }
    let m3 = if x.metadata.access_type == AccessType::Read {
        set_written_state(m2, a, st)
    } else {
        m2
    };
    if x.metadata.access_type == AccessType::Read {
        lemma_written_counts(m2, a, st);
    } else {
        lemma_links_trans(m2, m2, m2);
    }
    assert(slack(m3, t) == slack(m, t) + 1) by {
        assert(slack(m1, t) == slack(m, t) + 1);
        assert(slack(m, t) >= 0);
    }
    lemma_count_down_step(m3, t);
    let m4 = decrease_pending_resources(m3, t);
    assert(set_read_state(m, a, st) == m4);
    lemma_links_trans(m, m1, m2);
    lemma_links_trans(m, m2, m3);
    lemma_links_trans(m, m3, m4);
    assert forall|t2: int| 0 <= t2 < m.txs.len() implies #[trigger] slack(m4, t2) == slack(m, t2) by {
        assert(slack(m4, t2) == slack(m3, t2) - if t2 == t { 1int } else { 0int });
        assert(slack(m3, t2) == slack(m2, t2));
        assert(slack(m1, t2) == slack(m, t2) + if t2 == t { 1int } else { 0int });
    }
}

/// Publishing a written state keeps the links, the read states already known and the slack
/// of every transaction; a transaction that it makes available is ready.
proof fn lemma_written_counts(m: ManagerView, a: int, st: VersionedStateView)
    requires
        tx_links(m),
        available_ready(m),
        forall|t: int| 0 <= t < m.txs.len() ==> #[trigger] slack(m, t) >= 0,
    ensures
        publish_keeps(m, set_written_state(m, a, st)),
    decreases m.accesses.len() - a, 0int,
{
    if !(0 <= a < m.accesses.len()) || m.accesses[a].written_state is Some {
        lemma_links_trans(m, m, m);
        return;
    }
    let x = m.accesses[a];
    lemma_written_step(m, a, st);
    let m1 = set_access(m, a, AccessView { written_state: Some(st), ..x });
    let m2 = if x.is_batch_tail {
        let d = x.state_diff as int;
        let m1b = set_diff(m1, d, StateDiffView { written_state: Some(st), ..m1.state_diffs[d] });
        submit_write(m1b, m1b.state_diffs[d].batch as int, WriteView::StateDiff(x.state_diff))
    } else {
        m1
    };
    match x.next {
        Some(n) => {
            if a < n < m2.accesses.len() {
                assert forall|t2: int| 0 <= t2 < m2.txs.len() implies #[trigger] slack(m2, t2) >= 0 by {
                    assert(slack(m, t2) >= 0);
                }
                lemma_read_counts(m2, n as int, st);
                lemma_publish_keeps_trans(m, m2, set_read_state(m2, n as int, st));
            }
        },
        None => {},
    }
}

// ---------------------------------------------------------------------------------------
// Scheduling

/// Adding access `meta` to transaction `t`, which no batch offers: the new access does not
/// know its read state and joins `t`; everything else keeps its count.
proof fn lemma_add_access_counts(m: ManagerView, t: int, meta: AccessMetadata)
    requires
        tx_links(m),
        available_ready(m),
        0 <= t < m.txs.len(),
        t <= usize::MAX,
        m.accesses.len() < usize::MAX,
        forall|b: int, i: int|
            0 <= b < m.batches.len() && 0 <= i < m.batches[b].available_txs.len() ==> #[trigger] m.batches[b].available_txs[i]
                != t,
    ensures
        ({
            let m2 = add_access(m, t, meta);
            let a0 = m.accesses.len();
            &&& tx_links(m2)
            &&& available_ready(m2)
            &&& m2.accesses.len() == a0 + 1
            &&& m2.txs.len() == m.txs.len()
            &&& m2.batches.len() == m.batches.len()
            &&& m2.accesses[a0 as int].read_state is None
            &&& forall|x: int| 0 <= x < a0 ==> (#[trigger] m2.accesses[x]).read_state == m.accesses[x].read_state
            &&& m2.txs[t].resources == m.txs[t].resources.push(a0 as usize)
            &&& m2.txs[t].pending_resources == m.txs[t].pending_resources
            &&& m2.txs[t].batch == m.txs[t].batch
            &&& forall|t2: int| 0 <= t2 < m.txs.len() && t2 != t ==> #[trigger] m2.txs[t2] == m.txs[t2]
            &&& offers_same(m, m2)
        }),
{
    let m2 = add_access(m, t, meta);
    let a0 = m.accesses.len();
    let b = m.txs[t].batch;
    let last: Option<usize> = if m.resources.contains_key(meta.id) {
        Some(m.resources[meta.id])
    } else {
        None
    };
    let same_batch = match last {
        Some(p) => m.txs[m.accesses[p as int].tx as int].batch == b,
        None => false,
    };
    let sd: usize = if same_batch {
        m.accesses[last->0 as int].state_diff
    } else {
        m.state_diffs.len() as usize
    };
    let m1 = if same_batch {
        m
    } else {
        ManagerView {
            state_diffs: m.state_diffs.push(
                StateDiffView { batch: b, resource_id: meta.id, read_state: None, written_state: None },
            ),
            ..m
        }
    };
    let head = !same_batch;
    let mb = if same_batch {
        set_access(m1, last->0 as int, AccessView { is_batch_tail: false, ..m1.accesses[last->0 as int] })
    } else {
        m1
    };
    assert(mb.txs == m.txs && mb.batches == m.batches && mb.accesses.len() == a0);
    assert forall|x: int| 0 <= x < a0 implies (#[trigger] mb.accesses[x]).read_state == m.accesses[x].read_state
        && mb.accesses[x].tx == m.accesses[x].tx by {}
    assert(m2.accesses.len() == a0 + 1);
    assert(m2.accesses[a0 as int].tx == t);
    assert forall|x: int| 0 <= x < a0 implies (#[trigger] m2.accesses[x]).read_state == m.accesses[x].read_state
        && m2.accesses[x].tx == m.accesses[x].tx by {
        assert(m2.accesses[x] == mb.accesses[x]);
    }
    assert(m2.txs[t].resources == m.txs[t].resources.push(a0 as usize));
    assert forall|t2: int| 0 <= t2 < m.txs.len() && t2 != t implies #[trigger] m2.txs[t2] == m.txs[t2] by {}
    assert(offers_same(m, m2));
    // links
    assert forall|a: int| 0 <= a < m2.accesses.len() implies {
        let t3 = (#[trigger] m2.accesses[a]).tx as int;
        &&& t3 < m2.txs.len()
        &&& m2.txs[t3].resources.contains(a as usize)
    } by {
        if a == a0 {
            assert(m2.txs[t].resources[m.txs[t].resources.len() as int] == a0 as usize);
        } else {
            let t3 = m.accesses[a].tx as int;
            let w = choose|i: int| 0 <= i < m.txs[t3].resources.len() && m.txs[t3].resources[i] == a as usize;
            assert(m2.txs[t3].resources[w] == a as usize);
        }
    }
    assert forall|t3: int, i: int| 0 <= t3 < m2.txs.len() && 0 <= i < m2.txs[t3].resources.len() implies {
        let a = #[trigger] m2.txs[t3].resources[i];
        &&& a < m2.accesses.len()
        &&& m2.accesses[a as int].tx == t3
    } by {
        if t3 == t && i == m.txs[t].resources.len() {
        } else {
            assert(m2.txs[t3].resources[i] == m.txs[t3].resources[i]);
        }
    }
    assert forall|t3: int, i: int, j: int|
        0 <= t3 < m2.txs.len() && 0 <= i < j < m2.txs[t3].resources.len() implies #[trigger] m2.txs[t3].resources[i]
        != #[trigger] m2.txs[t3].resources[j] by {
        if t3 == t && j == m.txs[t].resources.len() {
            assert(m2.txs[t3].resources[i] == m.txs[t3].resources[i]);
            assert(m.txs[t3].resources[i] < a0);
        } else {
            assert(m2.txs[t3].resources[i] == m.txs[t3].resources[i]);
            assert(m2.txs[t3].resources[j] == m.txs[t3].resources[j]);
        }
    }
    assert forall|t3: int| 0 <= t3 < m2.txs.len() implies (#[trigger] m2.txs[t3]).batch < m2.batches.len() by {
        assert(m2.txs[t3].batch == m.txs[t3].batch);
    }
    // readiness
    assert forall|b2: int, i: int| 0 <= b2 < m2.batches.len() && 0 <= i < m2.batches[b2].available_txs.len() implies {
        let t3 = #[trigger] m2.batches[b2].available_txs[i];
        &&& t3 < m2.txs.len()
        &&& tx_ready(m2, t3 as int)
    } by {
        let t3 = m.batches[b2].available_txs[i] as int;
        assert(m2.batches[b2].available_txs[i] == t3);
        assert(t3 != t);
        assert(tx_ready(m, t3));
        assert(m2.txs[t3] == m.txs[t3]);
        assert forall|j: int| 0 <= j < m2.txs[t3].resources.len() implies (#[trigger] m2.accesses[m2.txs[t3].resources[j] as int]).read_state is Some by {
            let a = m.txs[t3].resources[j] as int;
            assert(m.accesses[a].read_state is Some);
        }
    }
}

/// Adding the accesses `metas` to transaction `t`, which no batch offers: `t` waits for
/// each of them, everything else keeps its count.
proof fn lemma_add_accesses_counts(m: ManagerView, t: int, metas: Seq<AccessMetadata>)
    requires
        tx_links(m),
        available_ready(m),
        0 <= t < m.txs.len(),
        t <= usize::MAX,
        m.accesses.len() + metas.len() <= usize::MAX,
        forall|b: int, i: int|
            0 <= b < m.batches.len() && 0 <= i < m.batches[b].available_txs.len() ==> #[trigger] m.batches[b].available_txs[i]
                != t,
    ensures
        ({
            let m2 = add_accesses(m, t, metas);
            &&& tx_links(m2)
            &&& available_ready(m2)
            &&& m2.accesses.len() == m.accesses.len() + metas.len()
            &&& m2.txs.len() == m.txs.len()
            &&& m2.batches.len() == m.batches.len()
            &&& forall|x: int| 0 <= x < m.accesses.len() ==> (#[trigger] m2.accesses[x]).read_state == m.accesses[x].read_state
            &&& unresolved(m2.accesses, m2.txs[t].resources) == unresolved(m.accesses, m.txs[t].resources) + metas.len()
            &&& m2.txs[t].pending_resources == m.txs[t].pending_resources
            &&& forall|t2: int| 0 <= t2 < m.txs.len() && t2 != t ==> #[trigger] slack(m2, t2) == slack(m, t2)
            &&& offers_same(m, m2)
        }),
    decreases metas.len(),
{
    if metas.len() == 0 {
        assert(add_accesses(m, t, metas) == m);
        return;
    }
    let init = metas.drop_last();
    lemma_add_accesses_counts(m, t, init);
    let m1 = add_accesses(m, t, init);
    lemma_add_access_counts(m1, t, metas.last());
    let m2 = add_access(m1, t, metas.last());
    assert(add_accesses(m, t, metas) == m2);
    let a1 = m1.accesses.len();
    let r1 = m1.txs[t].resources;
    assert forall|x: int| 0 <= x < m.accesses.len() implies (#[trigger] m2.accesses[x]).read_state == m.accesses[x].read_state by {
        assert(m1.accesses[x].read_state == m.accesses[x].read_state);
    }
    assert(m2.txs[t].resources.drop_last() == r1);
    assert(m2.txs[t].resources.last() == a1 as usize);
    assert(unresolved(m2.accesses, r1) == unresolved(m1.accesses, r1)) by {
        assert forall|i: int| 0 <= i < r1.len() implies (m1.accesses[#[trigger] r1[i] as int].read_state is None) == (
        m2.accesses[r1[i] as int].read_state is None) by {
            assert(r1[i] < a1);
        }
        lemma_unresolved_frame(m1.accesses, m2.accesses, r1);
    }
    assert forall|t2: int| 0 <= t2 < m.txs.len() && t2 != t implies #[trigger] slack(m2, t2) == slack(m, t2) by {
        assert(slack(m1, t2) == slack(m, t2));
        lemma_slack_frame(m1, m2, t2);
    }
    assert(offers_same(m, m2)) by {
        assert forall|b: int| 0 <= b < m.batches.len() implies (#[trigger] m2.batches[b]).available_txs
            == m.batches[b].available_txs by {
            assert(m1.batches[b].available_txs == m.batches[b].available_txs);
        }
    }
}

/// Adding a transaction keeps the counts exact: it waits for all its accesses.
proof fn lemma_add_tx_counts(m: ManagerView, b: int, metas: Seq<AccessMetadata>)
    requires
        counts_exact(m),
        0 <= b < m.batches.len(),
        m.txs.len() < usize::MAX,
        m.accesses.len() + metas.len() <= usize::MAX,
    ensures
        ({
            let m2 = add_tx(m, b, metas);
            &&& counts_exact(m2)
            &&& m2.accesses.len() == m.accesses.len() + metas.len()
            &&& m2.txs.len() == m.txs.len() + 1
            &&& m2.batches.len() == m.batches.len()
        }),
{
    let t = m.txs.len() as int;
    let m1 = ManagerView {
        txs: m.txs.push(TxView { batch: b as usize, resources: Seq::empty(), pending_resources: 0 }),
        ..m
    };
    assert forall|t2: int| 0 <= t2 < t implies #[trigger] m1.txs[t2] == m.txs[t2] by {}
    assert(tx_links(m1)) by {
        assert forall|a: int| 0 <= a < m1.accesses.len() implies {
            let t3 = (#[trigger] m1.accesses[a]).tx as int;
            &&& t3 < m1.txs.len()
            &&& m1.txs[t3].resources.contains(a as usize)
        } by {
            assert(m1.txs[m.accesses[a].tx as int] == m.txs[m.accesses[a].tx as int]);
        }
        assert forall|t3: int, i: int| 0 <= t3 < m1.txs.len() && 0 <= i < m1.txs[t3].resources.len() implies {
            let a = #[trigger] m1.txs[t3].resources[i];
            &&& a < m1.accesses.len()
            &&& m1.accesses[a as int].tx == t3
        } by {
            assert(t3 < t);
            assert(m1.txs[t3] == m.txs[t3]);
        }
        assert forall|t3: int, i: int, j: int|
            0 <= t3 < m1.txs.len() && 0 <= i < j < m1.txs[t3].resources.len() implies #[trigger] m1.txs[t3].resources[i]
            != #[trigger] m1.txs[t3].resources[j] by {
            assert(t3 < t);
            assert(m1.txs[t3] == m.txs[t3]);
        }
        assert forall|t3: int| 0 <= t3 < m1.txs.len() implies (#[trigger] m1.txs[t3]).batch < m1.batches.len() by {
            if t3 < t {
                assert(m1.txs[t3] == m.txs[t3]);
            }
        }
    }
    assert(available_ready(m1)) by {
        assert forall|b2: int, i: int| 0 <= b2 < m1.batches.len() && 0 <= i < m1.batches[b2].available_txs.len() implies {
            let t3 = #[trigger] m1.batches[b2].available_txs[i];
            &&& t3 < m1.txs.len()
            &&& tx_ready(m1, t3 as int)
        } by {
            let t3 = m.batches[b2].available_txs[i] as int;
            assert(tx_ready(m, t3));
            assert(m1.txs[t3] == m.txs[t3]);
        }
    }
    assert forall|b2: int, i: int|
        0 <= b2 < m1.batches.len() && 0 <= i < m1.batches[b2].available_txs.len() implies #[trigger] m1.batches[b2].available_txs[i]
        != t by {
        assert(m.batches[b2].available_txs[i] < m.txs.len());
    }
    lemma_add_accesses_counts(m1, t, metas);
    let m2 = add_accesses(m1, t, metas);
    assert(unresolved(m1.accesses, m1.txs[t].resources) == 0);
    assert(metas.len() as u64 == metas.len());
    let m3 = set_tx(m2, t, TxView { pending_resources: metas.len() as u64, ..m2.txs[t] });
    let m4 = set_batch(m3, b, BatchView { txs: m3.batches[b].txs.push(t as usize), ..m3.batches[b] });
    assert(add_tx(m, b, metas) == m4);
    assert(same_links(m2, m3) && reads_grow(m2, m3) && offers_same(m2, m3));
    lemma_links_keep(m2, m3);
    lemma_ready_keep(m2, m3);
    assert(same_links(m3, m4) && reads_grow(m3, m4) && offers_same(m3, m4));
    lemma_links_keep(m3, m4);
    lemma_ready_keep(m3, m4);
    assert forall|t2: int| 0 <= t2 < m4.txs.len() implies #[trigger] slack(m4, t2) == 0 by {
        if t2 != t {
            assert(slack(m, t2) == 0);
            assert(slack(m1, t2) == slack(m, t2));
            assert(slack(m2, t2) == slack(m1, t2));
            assert(m3.txs[t2] == m2.txs[t2]);
        }
    }
}

/// Publishing a state keeps the number of accesses, transactions and batches.
proof fn lemma_publish_lens(m: ManagerView, a: int, st: VersionedStateView, read: bool)
    ensures
        ({
            let m2 = if read { set_read_state(m, a, st) } else { set_written_state(m, a, st) };
            &&& m2.accesses.len() == m.accesses.len()
            &&& m2.txs.len() == m.txs.len()
            &&& m2.batches.len() == m.batches.len()
        }),
    decreases m.accesses.len() - a, if read { 1int } else { 0int },
{
    if !(0 <= a < m.accesses.len()) {
        return;
    }
    let x = m.accesses[a];
    if read {
        if x.read_state is None {
            let m1 = set_access(m, a, AccessView { read_state: Some(st), prev: None, ..x });
            let m2 = if x.is_batch_head {
                let d = x.state_diff as int;
                set_diff(m1, d, StateDiffView { read_state: Some(st), ..m1.state_diffs[d] })
            } else {
                m1
            };
            if x.metadata.access_type == AccessType::Read {
                lemma_publish_lens(m2, a, st, false);
            }
        }
    } else {
        if x.written_state is None {
            let m1 = set_access(m, a, AccessView { written_state: Some(st), ..x });
            let m2 = if x.is_batch_tail {
                let d = x.state_diff as int;
                let m1b = set_diff(m1, d, StateDiffView { written_state: Some(st), ..m1.state_diffs[d] });
                submit_write(m1b, m1b.state_diffs[d].batch as int, WriteView::StateDiff(x.state_diff))
            } else {
                m1
            };
            if let Some(n) = x.next {
                if a < n < m2.accesses.len() {
                    lemma_publish_lens(m2, n as int, st, true);
                }
            }
        }
    }
}

/// Connecting accesses keeps the sizes, and keeps exact counts exact.
pub(crate) proof fn lemma_connect_range_counts(m: ManagerView, lo: int, hi: int)
    ensures
        ({
            let m2 = connect_range(m, lo, hi);
            &&& m2.accesses.len() == m.accesses.len()
            &&& m2.txs.len() == m.txs.len()
            &&& m2.batches.len() == m.batches.len()
            &&& counts_exact(m) ==> counts_exact(m2)
        }),
    decreases hi - lo,
{
    if hi > lo {
        lemma_connect_range_counts(m, lo, hi - 1);
        let m1 = connect_range(m, lo, hi - 1);
        let a = hi - 1;
        match m1.accesses[a].prev {
            Some(p) => {
                let m2 = set_access(m1, p as int, AccessView { next: Some(a as usize), ..m1.accesses[p as int] });
                assert(m2.txs == m1.txs && m2.batches == m1.batches);
                match m2.accesses[p as int].written_state {
                    Some(w) => {
                        lemma_publish_lens(m2, a, w, true);
                    },
                    None => {},
                }
                if counts_exact(m) {
                    assert(same_links(m1, m2) && reads_grow(m1, m2) && offers_same(m1, m2));
                    lemma_links_keep(m1, m2);
                    lemma_ready_keep(m1, m2);
                    assert forall|t: int| 0 <= t < m2.txs.len() implies #[trigger] slack(m2, t) == 0 by {
                        assert(slack(m1, t) == 0);
                        lemma_slack_frame(m1, m2, t);
                    }
                    match m2.accesses[p as int].written_state {
                        Some(w) => {
                            lemma_read_counts(m2, a, w);
                            let m3 = set_read_state(m2, a, w);
                            assert forall|t: int| 0 <= t < m3.txs.len() implies #[trigger] slack(m3, t) == 0 by {
                                assert(slack(m2, t) == 0);
                            }
                        },
                        None => {},
                    }
                }
            },
            None => {
                if counts_exact(m) {
                    lemma_counts_frame(m1, connect(m1, a));
                }
            },
        }
    }
}

/// Adding accesses adds one access each and keeps the other sizes.
proof fn lemma_add_accesses_lens(m: ManagerView, t: int, metas: Seq<AccessMetadata>)
    ensures
        add_accesses(m, t, metas).accesses.len() == m.accesses.len() + metas.len(),
        add_accesses(m, t, metas).txs.len() == m.txs.len(),
        add_accesses(m, t, metas).batches.len() == m.batches.len(),
    decreases metas.len(),
{
    if metas.len() > 0 {
        lemma_add_accesses_lens(m, t, metas.drop_last());
    }
}

/// Adding transactions adds one transaction each and their accesses.
proof fn lemma_add_txs_lens(m: ManagerView, b: int, txs: Seq<Seq<AccessMetadata>>)
    ensures
        add_txs(m, b, txs).accesses.len() >= m.accesses.len(),
        add_txs(m, b, txs).txs.len() == m.txs.len() + txs.len(),
        add_txs(m, b, txs).batches.len() == m.batches.len(),
        txs.len() > 0 ==> add_txs(m, b, txs).accesses.len() == add_txs(m, b, txs.drop_last()).accesses.len()
            + txs.last().len(),
    decreases txs.len(),
{
    if txs.len() > 0 {
        lemma_add_txs_lens(m, b, txs.drop_last());
        let m1 = add_txs(m, b, txs.drop_last());
        let t = m1.txs.len() as int;
        let m1a = ManagerView {
            txs: m1.txs.push(TxView { batch: b as usize, resources: Seq::empty(), pending_resources: 0 }),
            ..m1
        };
        lemma_add_accesses_lens(m1a, t, txs.last());
    }
}

/// Adding transactions to batch `b` keeps the counts exact.
proof fn lemma_add_txs_counts(m: ManagerView, b: int, txs: Seq<Seq<AccessMetadata>>)
    requires
        counts_exact(m),
        0 <= b < m.batches.len(),
        add_txs(m, b, txs).accesses.len() <= usize::MAX,
        add_txs(m, b, txs).txs.len() <= usize::MAX,
    ensures
        counts_exact(add_txs(m, b, txs)),
    decreases txs.len(),
{
    if txs.len() > 0 {
        lemma_add_txs_lens(m, b, txs);
        lemma_add_txs_lens(m, b, txs.drop_last());
        let m1 = add_txs(m, b, txs.drop_last());
        lemma_add_txs_counts(m, b, txs.drop_last());
        lemma_add_tx_counts(m1, b, txs.last());
    }
}

// ---------------------------------------------------------------------------------------
// Laws

/// A step that changes neither accesses, transactions nor offered transactions keeps
/// exact counts.
proof fn lemma_counts_frame(m1: ManagerView, m2: ManagerView)
    requires
        counts_exact(m1),
        m2.accesses == m1.accesses,
        m2.txs == m1.txs,
        m2.batches.len() == m1.batches.len(),
        offers_same(m1, m2),
    ensures
        counts_exact(m2),
{
    assert(same_links(m1, m2));
    assert(reads_grow(m1, m2));
    lemma_links_keep(m1, m2);
    lemma_ready_keep(m1, m2);
    assert forall|t: int| 0 <= t < m2.txs.len() implies #[trigger] slack(m2, t) == 0 by {
        assert(slack(m1, t) == 0);
    }
}

/// Law: a transaction's pending count is zero exactly when all its accesses know their read
/// state.
pub proof fn lemma_pending_zero_iff_ready(m: ManagerView, t: int)
    requires
        counts_exact(m),
        0 <= t < m.txs.len(),
    ensures
        m.txs[t].pending_resources == 0 <==> tx_ready(m, t),
{
    assert(slack(m, t) == 0);
    lemma_unresolved_zero(m.accesses, m.txs[t].resources);
}

/// Law: a runtime without transactions has exact pending counts.
pub proof fn lemma_counts_start(m: ManagerView)
    requires
        m.accesses.len() == 0,
        m.txs.len() == 0,
        m.batches.len() == 0,
    ensures
        counts_exact(m),
{
}

/// Law: the steps of storage keep the pending counts exact: handing a commit to storage,
/// rolling back, executing or dropping a storage write, reporting a write done, marking a
/// batch committed and counting down its transactions.
pub proof fn lemma_storage_steps_keep_counts(m: ManagerView, b: int, target: u64, s: StoreView)
    requires
        counts_exact(m),
    ensures
        counts_exact(schedule_commit(m, b)),
        counts_exact(rollback_to(m, target)),
        counts_exact(pop_write(m)),
        counts_exact(with_store(m, s)),
        counts_exact(decrease_pending_writes(m, b)),
        counts_exact(decrease_pending_txs(m, b)),
        counts_exact(set_batch(m, b, BatchView { was_committed: true, ..m.batches[b] })),
{
    lemma_counts_frame(m, schedule_commit(m, b));
    lemma_counts_frame(m, rollback_to(m, target));
    lemma_counts_frame(m, pop_write(m));
    lemma_counts_frame(m, with_store(m, s));
    lemma_counts_frame(m, decrease_pending_writes(m, b));
    lemma_counts_frame(m, decrease_pending_txs(m, b));
    lemma_counts_frame(m, set_batch(m, b, BatchView { was_committed: true, ..m.batches[b] }));
}

/// Law: taking transactions from the front of a batch's available ones keeps the pending
/// counts exact.
pub proof fn lemma_steal_keeps_counts(m: ManagerView, b: int, k: int)
    requires
        counts_exact(m),
        0 <= k <= m.batches[b].available_txs.len(),
    ensures
        counts_exact(set_batch(m, b, BatchView { available_txs: m.batches[b].available_txs.skip(k), ..m.batches[b] })),
{
    let m2 = set_batch(m, b, BatchView { available_txs: m.batches[b].available_txs.skip(k), ..m.batches[b] });
    assert(same_links(m, m2));
    assert(reads_grow(m, m2));
    lemma_links_keep(m, m2);
    assert forall|b2: int, i: int| 0 <= b2 < m2.batches.len() && 0 <= i < m2.batches[b2].available_txs.len() implies {
        let t = #[trigger] m2.batches[b2].available_txs[i];
        &&& t < m2.txs.len()
        &&& tx_ready(m2, t as int)
    } by {
        if b2 == b {
            assert(m2.batches[b2].available_txs[i] == m.batches[b].available_txs[i + k]);
        } else {
            assert(m2.batches[b2] == m.batches[b2]);
        }
    }
    assert forall|t: int| 0 <= t < m2.txs.len() implies #[trigger] slack(m2, t) == 0 by {
        assert(slack(m, t) == 0);
    }
}

/// Law: scheduling a batch keeps the pending counts exact: each new transaction waits for
/// its accesses that do not know their read state after they connected to the accesses
/// before them, and becomes available once none is left.
pub proof fn lemma_schedule_keeps_counts(m: ManagerView, txs: Seq<Seq<AccessMetadata>>)
    requires
        counts_exact(m),
        schedule(m, txs).accesses.len() <= usize::MAX,
        schedule(m, txs).txs.len() <= usize::MAX,
    ensures
        counts_exact(schedule(m, txs)),
{
    let c = m.longest_chain as int;
    let index = m.chains[c].last_batch_index;
    let m1 = ManagerView {
        chains: m.chains.update(c, ChainView { last_batch_index: crate::chain::wrapping_inc(index), ..m.chains[c] }),
        ..m
    };
    let b = m1.batches.len();
    let m2 = ManagerView {
        batches: m1.batches.push(
            BatchView {
                chain: m.longest_chain,
                index,
                txs: Seq::empty(),
                state_diffs: Seq::empty(),
                available_txs: Seq::empty(),
                pending_txs: txs.len() as u64,
                pending_writes: 0,
                was_processed: false,
                was_persisted: false,
                was_committed: false,
            },
        ),
        ..m1
    };
    assert forall|b2: int| 0 <= b2 < m.batches.len() implies #[trigger] m2.batches[b2] == m.batches[b2] by {}
    assert(tx_links(m2)) by {
        assert forall|t: int| 0 <= t < m2.txs.len() implies (#[trigger] m2.txs[t]).batch < m2.batches.len() by {
            assert(m.txs[t].batch < m.batches.len());
        }
    }
    assert(available_ready(m2)) by {
        assert forall|b2: int, i: int| 0 <= b2 < m2.batches.len() && 0 <= i < m2.batches[b2].available_txs.len() implies {
            let t = #[trigger] m2.batches[b2].available_txs[i];
            &&& t < m2.txs.len()
            &&& tx_ready(m2, t as int)
        } by {
            assert(b2 < m.batches.len());
            assert(m2.batches[b2] == m.batches[b2]);
            assert(tx_ready(m, m.batches[b2].available_txs[i] as int));
        }
    }
    assert forall|t: int| 0 <= t < m2.txs.len() implies #[trigger] slack(m2, t) == 0 by {
        assert(slack(m, t) == 0);
    }
    let m3 = add_txs(m2, b as int, txs);
    lemma_connect_range_counts(m3, m.accesses.len() as int, m3.accesses.len() as int);
    lemma_add_txs_counts(m2, b as int, txs);
}

/// Law: serving a storage read keeps the pending counts exact.
pub proof fn lemma_process_read_keeps_counts(m: ManagerView)
    requires
        counts_exact(m),
        m.reads.len() > 0,
    ensures
        counts_exact(process_read(m)),
{
    let m1 = ManagerView { reads: m.reads.drop_first(), ..m };
    lemma_counts_frame(m, m1);
    match m.reads[0] {
        ReadView::LatestData(a) => {
            let st = latest_state(m.store, m.accesses[a as int].metadata.id);
            assert forall|t: int| 0 <= t < m1.txs.len() implies #[trigger] slack(m1, t) >= 0 by {
                assert(slack(m1, t) == 0);
            }
            lemma_read_counts(m1, a as int, st);
            let m2 = set_read_state(m1, a as int, st);
            assert forall|t: int| 0 <= t < m2.txs.len() implies #[trigger] slack(m2, t) == 0 by {
                assert(slack(m1, t) == 0);
            }
        },
    }
}

/// Publishing the states of finished handles keeps the counts exact.
proof fn lemma_finish_handles_counts(m: ManagerView, hs: Seq<AccessHandleView>, ok: bool)
    requires
        counts_exact(m),
    ensures
        counts_exact(finish_handles(m, hs, ok)),
        finish_handles(m, hs, ok).batches.len() == m.batches.len(),
    decreases hs.len(),
{
    if hs.len() > 0 {
        lemma_finish_handles_counts(m, hs.drop_last(), ok);
        let m1 = finish_handles(m, hs.drop_last(), ok);
        let h = hs.last();
        let a = h.access as int;
        if m1.accesses[a].metadata.access_type == AccessType::Write {
            let st = if ok { h.state } else { m1.accesses[a].read_state->0 };
            assert forall|t: int| 0 <= t < m1.txs.len() implies #[trigger] slack(m1, t) >= 0 by {
                assert(slack(m1, t) == 0);
            }
            lemma_written_counts(m1, a, st);
            let m2 = set_written_state(m1, a, st);
            assert(finish_handle(m1, h, ok) == m2);
            assert forall|t: int| 0 <= t < m2.txs.len() implies #[trigger] slack(m2, t) == 0 by {
                assert(slack(m1, t) == 0);
            }
        }
    }
}

/// Law: finishing the execution of a transaction keeps the pending counts exact.
pub proof fn lemma_execute_keeps_counts(m: ManagerView, t: int, hs: Seq<AccessHandleView>, ok: bool)
    requires
        counts_exact(m),
    ensures
        counts_exact(execute(m, t, hs, ok)),
{
    lemma_finish_handles_counts(m, hs, ok);
    let m1 = finish_handles(m, hs, ok);
    lemma_counts_frame(m1, decrease_pending_txs(m1, m.txs[t].batch as int));
}

} // verus!
