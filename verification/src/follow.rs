//! Each access reads what the access before it wrote.
//!
//! When a transaction's access is linked after the previous access of the same resource,
//! the state it reads is the state that previous access writes: scheduled transactions see
//! each resource as if the transactions ran one after the other, in schedule order.

use vstd::prelude::*;

use crate::access::AccessType;
use crate::manager::{
    decrease_pending_resources, decrease_pending_txs, decrease_pending_writes, execute, finish_handle,
    finish_handles, pop_write, process_read, rollback_to, schedule_commit, set_access, set_batch, set_diff,
    set_read_state, set_written_state, submit_write, with_store, AccessHandleView, AccessView, BatchView,
    ManagerView, ReadView, StateDiffView, TxView, WriteView, add_access, add_accesses, add_tx, add_txs,
    connect, connect_range, schedule, set_tx,
};
use crate::access::AccessMetadata;
use crate::chain::ChainView;
use crate::store::StoreView;
use crate::versioned_state::{latest_state, VersionedStateView};

verus! {

/// An access that follows another (its `next`) and knows its read state reads what that
/// access wrote; the links that make this hold are in order and without sharing.
pub open spec fn reads_follow(m: ManagerView) -> bool {
    follow_links(m.accesses, m.reads, m.resources)
}

/// `reads_follow` over the parts of the state it speaks of.
#[verifier::opaque]
pub open spec fn follow_links(acc: Seq<AccessView>, reads: Seq<ReadView>, resources: Map<u64, usize>) -> bool {
    &&& forall|a: int| 0 <= a < acc.len() ==> (#[trigger] acc[a].next matches Some(n) ==> a < n < acc.len())
    &&& forall|a: int| 0 <= a < acc.len() ==> (#[trigger] acc[a].prev matches Some(p) ==> p < a)
    &&& forall|a1: int, a2: int|
        0 <= a1 < acc.len() && 0 <= a2 < acc.len() && a1 != a2 && (#[trigger] acc[a1].next) is Some ==> acc[a1].next
            != #[trigger] acc[a2].next
    &&& forall|id: u64| #[trigger] resources.contains_key(id) ==> resources[id] < acc.len()
    &&& forall|i: int|
        0 <= i < reads.len() ==> (#[trigger] reads[i] matches ReadView::LatestData(r) ==> {
            &&& r < acc.len()
            &&& forall|a: int| 0 <= a < acc.len() ==> #[trigger] acc[a].next != Some(r)
        })
    &&& forall|a: int|
        0 <= a < acc.len() ==> (#[trigger] acc[a].next matches Some(n) ==> (acc[n as int].read_state is Some
            ==> acc[a].written_state == acc[n as int].read_state))
}

/// `m2` has the accesses, reads and resource links of `m1`.
proof fn lemma_follow_frame(m1: ManagerView, m2: ManagerView)
    requires
        reads_follow(m1),
        m2.accesses == m1.accesses,
        m2.reads == m1.reads,
        m2.resources == m1.resources,
    ensures
        reads_follow(m2),
{
}

/// What publishing a state keeps of `m`: the links and reads queue, the states already
/// known, and which read states change: `a`'s, if `own`, and those of following accesses.
pub open spec fn publish_frame(m: ManagerView, m2: ManagerView, a: int, own: bool) -> bool {
    &&& m2.accesses.len() == m.accesses.len()
    &&& m2.reads == m.reads
    &&& m2.resources == m.resources
    &&& forall|y: int| 0 <= y < m.accesses.len() ==> #[trigger] m2.accesses[y].next == m.accesses[y].next
    &&& forall|y: int| 0 <= y < m.accesses.len() ==> #[trigger] m2.accesses[y].prev == m.accesses[y].prev
        || m2.accesses[y].prev is None
    &&& forall|y: int|
        0 <= y < m.accesses.len() && #[trigger] m2.accesses[y].read_state != m.accesses[y].read_state ==> (own
            && y == a) || exists|q: int| 0 <= q < m.accesses.len() && m.accesses[q].next == Some(y as usize)
}

proof fn lemma_publish_frame_trans(m1: ManagerView, m2: ManagerView, m3: ManagerView, a: int, own1: bool, own2: bool)
    requires
        publish_frame(m1, m2, a, own1),
        publish_frame(m2, m3, a, own2),
    ensures
        publish_frame(m1, m3, a, own1 || own2),
{
    assert forall|y: int| 0 <= y < m1.accesses.len() implies (#[trigger] m3.accesses[y]).next == m1.accesses[y].next by {
        assert(m2.accesses[y].next == m1.accesses[y].next);
    }
    assert forall|y: int| 0 <= y < m1.accesses.len() implies (#[trigger] m3.accesses[y]).prev == m1.accesses[y].prev
        || m3.accesses[y].prev is None by {
        assert(m2.accesses[y].prev == m1.accesses[y].prev || m2.accesses[y].prev is None);
    }
    assert forall|y: int|
        0 <= y < m1.accesses.len() && (#[trigger] m3.accesses[y]).read_state != m1.accesses[y].read_state implies ((
        own1 || own2) && y == a) || exists|q: int| 0 <= q < m1.accesses.len() && m1.accesses[q].next == Some(y as usize) by {
        if m2.accesses[y].read_state != m1.accesses[y].read_state {
        } else {
            assert(m3.accesses[y].read_state != m2.accesses[y].read_state);
            if !(own2 && y == a) {
                let q = choose|q: int| 0 <= q < m2.accesses.len() && m2.accesses[q].next == Some(y as usize);
                assert(m2.accesses[q].next == m1.accesses[q].next);
            }
        }
    }
}

/// The links of `acc` give `acc1` its `follow_links` when `acc1` keeps every access's
/// links and read state, with written states that differ only where no following access
/// knows its read state, and where the read state of `a` is new, its predecessor wrote it.
proof fn lemma_follow_links_step(
    acc: Seq<AccessView>,
    acc1: Seq<AccessView>,
    reads: Seq<ReadView>,
    resources: Map<u64, usize>,
)
    requires
        follow_links(acc, reads, resources),
        acc1.len() == acc.len(),
        forall|q: int| 0 <= q < acc.len() ==> #[trigger] acc1[q].next == acc[q].next,
        forall|q: int| 0 <= q < acc.len() ==> #[trigger] acc1[q].prev == acc[q].prev || acc1[q].prev is None,
        forall|q: int|
            0 <= q < acc.len() ==> (#[trigger] acc[q].next matches Some(n) ==> (acc1[n as int].read_state is Some
                ==> acc1[q].written_state == acc1[n as int].read_state)),
    ensures
        follow_links(acc1, reads, resources),
{
    reveal(follow_links);
    assert forall|q: int| 0 <= q < acc1.len() implies (#[trigger] acc1[q].next matches Some(n) ==> q < n < acc1.len()) by {
        assert(acc1[q].next == acc[q].next);
    }
    assert forall|q: int| 0 <= q < acc1.len() implies (#[trigger] acc1[q].prev matches Some(p) ==> p < q) by {
        assert(acc1[q].prev == acc[q].prev || acc1[q].prev is None);
    }
    assert forall|a1: int, a2: int|
        0 <= a1 < acc1.len() && 0 <= a2 < acc1.len() && a1 != a2 && (#[trigger] acc1[a1].next) is Some implies acc1[a1].next
        != #[trigger] acc1[a2].next by {
        assert(acc1[a1].next == acc[a1].next && acc1[a2].next == acc[a2].next);
    }
    assert forall|i: int| 0 <= i < reads.len() implies (#[trigger] reads[i] matches ReadView::LatestData(r) ==> {
        &&& r < acc1.len()
        &&& forall|q: int| 0 <= q < acc1.len() ==> #[trigger] acc1[q].next != Some(r)
    }) by {
        if let ReadView::LatestData(r) = reads[i] {
            assert forall|q: int| 0 <= q < acc1.len() implies #[trigger] acc1[q].next != Some(r) by {
                assert(acc1[q].next == acc[q].next);
            }
        }
    }
    assert forall|q: int| 0 <= q < acc1.len() implies (#[trigger] acc1[q].next matches Some(n) ==> (
    acc1[n as int].read_state is Some ==> acc1[q].written_state == acc1[n as int].read_state)) by {
        assert(acc1[q].next == acc[q].next);
    }
}

/// Access `a` records its written state.
proof fn lemma_written_step_follow(m: ManagerView, a: int, st: VersionedStateView)
    requires
        reads_follow(m),
        0 <= a < m.accesses.len(),
        m.accesses[a].written_state is None,
    ensures
        ({
            let x = m.accesses[a];
            let m1 = set_access(m, a, AccessView { written_state: Some(st), ..x });
            reads_follow(m1) && publish_frame(m, m1, a, false)
        }),
{
    let x = m.accesses[a];
    let m1 = set_access(m, a, AccessView { written_state: Some(st), ..x });
    let acc = m.accesses;
    let acc1 = m1.accesses;
    assert forall|q: int| 0 <= q < acc.len() implies (#[trigger] acc[q].next matches Some(n) ==> (
    acc1[n as int].read_state is Some ==> acc1[q].written_state == acc1[n as int].read_state)) by {
        reveal(follow_links);
        if let Some(n) = acc[q].next {
            assert(q < n < acc.len());
            assert(acc1[n as int].read_state == acc[n as int].read_state);
            if acc[n as int].read_state is Some {
                assert(acc[q].written_state == acc[n as int].read_state);
                assert(q != a);
            }
        }
    }
    lemma_follow_links_step(acc, acc1, m.reads, m.resources);
    assert forall|y: int| 0 <= y < acc.len() implies #[trigger] acc1[y].read_state == acc[y].read_state by {}
}

/// Access `a` records the read state its predecessor wrote.
proof fn lemma_read_step_follow(m: ManagerView, a: int, st: VersionedStateView)
    requires
        reads_follow(m),
        0 <= a < m.accesses.len(),
        m.accesses[a].read_state is None,
        forall|q: int|
            0 <= q < m.accesses.len() && m.accesses[q].next == Some(a as usize) ==> m.accesses[q].written_state
                == Some(st),
    ensures
        ({
            let x = m.accesses[a];
            let m1 = set_access(m, a, AccessView { read_state: Some(st), prev: None, ..x });
            reads_follow(m1) && publish_frame(m, m1, a, true)
        }),
{
    let x = m.accesses[a];
    let m1 = set_access(m, a, AccessView { read_state: Some(st), prev: None, ..x });
    let acc = m.accesses;
    let acc1 = m1.accesses;
    assert forall|q: int| 0 <= q < acc.len() implies (#[trigger] acc[q].next matches Some(n) ==> (
    acc1[n as int].read_state is Some ==> acc1[q].written_state == acc1[n as int].read_state)) by {
        reveal(follow_links);
        if let Some(n) = acc[q].next {
            assert(q < n < acc.len());
            if n as int == a {
                assert(acc[q].next == Some(a as usize));
                assert(acc[q].written_state == Some(st));
                assert(q != a);
            } else {
                assert(acc1[n as int].read_state == acc[n as int].read_state);
            }
        }
    }
    lemma_follow_links_step(acc, acc1, m.reads, m.resources);
    assert forall|y: int|
        0 <= y < acc.len() && #[trigger] acc1[y].read_state != acc[y].read_state implies y == a by {}
}

/// Publishing a written state keeps `reads_follow` and changes only the read states of
/// following accesses.
proof fn lemma_follow_written(m: ManagerView, a: int, st: VersionedStateView)
    requires
        reads_follow(m),
    ensures
        reads_follow(set_written_state(m, a, st)),
        publish_frame(m, set_written_state(m, a, st), a, false),
    decreases m.accesses.len() - a, 0int,
{
    let m_end = set_written_state(m, a, st);
    if !(0 <= a < m.accesses.len()) || m.accesses[a].written_state is Some {
        assert(m_end == m);
        return;
    }
    let x = m.accesses[a];
    let m1 = set_access(m, a, AccessView { written_state: Some(st), ..x });
    lemma_written_step_follow(m, a, st);
    let m2 = if x.is_batch_tail {
        let d = x.state_diff as int;
        let m1b = set_diff(m1, d, StateDiffView { written_state: Some(st), ..m1.state_diffs[d] });
        submit_write(m1b, m1b.state_diffs[d].batch as int, WriteView::StateDiff(x.state_diff))
    } else {
        m1
    };
    assert(m2.accesses == m1.accesses && m2.reads == m1.reads && m2.resources == m1.resources);
    lemma_follow_frame(m1, m2);
    assert(publish_frame(m1, m2, a, false));
    lemma_publish_frame_trans(m, m1, m2, a, false, false);
    match x.next {
        Some(n) => {
            if a < n < m2.accesses.len() {
                assert forall|q: int|
                    0 <= q < m2.accesses.len() && m2.accesses[q].next == Some(n) implies m2.accesses[q].written_state
                    == Some(st) by {
                    assert(m2.accesses[q].next == m.accesses[q].next);
                    assert(m2.accesses[a].written_state == Some(st));
                    if q != a {
                        reveal(follow_links);
                        assert(m.accesses[a].next is Some);
                        assert(m.accesses[q].next != m.accesses[a].next);
                    }
                }
                lemma_follow_read(m2, n as int, st);
                let m3 = set_read_state(m2, n as int, st);
                assert(m_end == m3);
                assert forall|y: int|
                    0 <= y < m2.accesses.len() && (#[trigger] m3.accesses[y]).read_state != m2.accesses[y].read_state
                    implies exists|q: int| 0 <= q < m2.accesses.len() && m2.accesses[q].next == Some(y as usize) by {
                    if y == n {
                        assert(m2.accesses[a].next == Some(y as usize));
                    }
                }
                assert(publish_frame(m2, m3, a, false));
                lemma_publish_frame_trans(m, m2, m3, a, false, false);
            }
        },
        None => {},
    }
}

/// Publishing a read state that the accesses `a` follows wrote keeps `reads_follow`, and
/// changes only `a`'s read state and those of following accesses.
proof fn lemma_follow_read(m: ManagerView, a: int, st: VersionedStateView)
    requires
        reads_follow(m),
        forall|q: int|
            0 <= q < m.accesses.len() && m.accesses[q].next == Some(a as usize) ==> m.accesses[q].written_state
                == Some(st),
    ensures
        reads_follow(set_read_state(m, a, st)),
        publish_frame(m, set_read_state(m, a, st), a, true),
    decreases m.accesses.len() - a, 1int,
{
    let m_end = set_read_state(m, a, st);
    if !(0 <= a < m.accesses.len()) || m.accesses[a].read_state is Some {
        assert(m_end == m);
        return;
    }
    let x = m.accesses[a];
    let m1 = set_access(m, a, AccessView { read_state: Some(st), prev: None, ..x });
    lemma_read_step_follow(m, a, st);
    let m2 = if x.is_batch_head {
        let d = x.state_diff as int;
        set_diff(m1, d, StateDiffView { read_state: Some(st), ..m1.state_diffs[d] })
    } else {
        m1
    };
    assert(m2.accesses == m1.accesses && m2.reads == m1.reads && m2.resources == m1.resources);
    lemma_follow_frame(m1, m2);
    assert(publish_frame(m1, m2, a, true));
    lemma_publish_frame_trans(m, m1, m2, a, true, true);
    let m3 = if x.metadata.access_type == AccessType::Read {
        set_written_state(m2, a, st)
    } else {
        m2
    };
    if x.metadata.access_type == AccessType::Read {
        lemma_follow_written(m2, a, st);
        lemma_publish_frame_trans(m, m2, m3, a, true, false);
    }
    let m4 = decrease_pending_resources(m3, x.tx as int);
    assert(m4.accesses == m3.accesses && m4.reads == m3.reads && m4.resources == m3.resources);
    lemma_follow_frame(m3, m4);
    assert(publish_frame(m3, m4, a, true));
    lemma_publish_frame_trans(m, m3, m4, a, true, true);
    assert(m_end == m4);
}

// ---------------------------------------------------------------------------------------
// Laws

/// Law: where `reads_follow` holds, an access that follows another and knows its read state
/// reads exactly the state the other one wrote.
pub proof fn lemma_follower_reads_written(m: ManagerView, a: int)
    requires
        reads_follow(m),
        0 <= a < m.accesses.len(),
        m.accesses[a].next is Some,
        m.accesses[m.accesses[a].next->0 as int].read_state is Some,
    ensures
        m.accesses[a].written_state == m.accesses[m.accesses[a].next->0 as int].read_state,
{
    reveal(follow_links);
}

/// Law: a runtime without accesses and storage reads satisfies `reads_follow`.
pub proof fn lemma_reads_follow_start(m: ManagerView)
    requires
        m.accesses.len() == 0,
        m.reads.len() == 0,
        m.resources == Map::<u64, usize>::empty(),
    ensures
        reads_follow(m),
{
    reveal(follow_links);
}

/// Law: the steps that change neither accesses nor storage reads keep `reads_follow`:
/// handing a commit to storage, rolling back, executing or dropping a storage write,
/// reporting a write done, marking a batch committed, counting down its transactions and
/// taking available transactions.
pub proof fn lemma_storage_steps_keep_follow(m: ManagerView, b: int, target: u64, s: StoreView, x: BatchView)
    requires
        reads_follow(m),
    ensures
        reads_follow(schedule_commit(m, b)),
        reads_follow(rollback_to(m, target)),
        reads_follow(pop_write(m)),
        reads_follow(with_store(m, s)),
        reads_follow(decrease_pending_writes(m, b)),
        reads_follow(decrease_pending_txs(m, b)),
        reads_follow(set_batch(m, b, x)),
{
    lemma_follow_frame(m, schedule_commit(m, b));
    lemma_follow_frame(m, pop_write(m));
    lemma_follow_frame(m, with_store(m, s));
    lemma_follow_frame(m, decrease_pending_writes(m, b));
    lemma_follow_frame(m, decrease_pending_txs(m, b));
    lemma_follow_frame(m, set_batch(m, b, x));
    reveal(follow_links);
}

/// Law: serving a storage read keeps `reads_follow`: the access it serves follows no other.
pub proof fn lemma_process_read_keeps_follow(m: ManagerView)
    requires
        reads_follow(m),
        m.reads.len() > 0,
    ensures
        reads_follow(process_read(m)),
{
    let m1 = ManagerView { reads: m.reads.drop_first(), ..m };
    match m.reads[0] {
        ReadView::LatestData(r) => {
            assert(follow_links(m1.accesses, m1.reads, m1.resources)) by {
                reveal(follow_links);
                assert forall|i: int| 0 <= i < m1.reads.len() implies (#[trigger] m1.reads[i] matches ReadView::LatestData(r2)
                    ==> {
                    &&& r2 < m1.accesses.len()
                    &&& forall|q: int| 0 <= q < m1.accesses.len() ==> #[trigger] m1.accesses[q].next != Some(r2)
                }) by {
                    assert(m1.reads[i] == m.reads[i + 1]);
                }
            }
            assert forall|q: int|
                0 <= q < m1.accesses.len() && m1.accesses[q].next == Some(r) implies m1.accesses[q].written_state
                == Some(latest_state(m.store, m.accesses[r as int].metadata.id)) by {
                reveal(follow_links);
                assert(m.reads[0] == ReadView::LatestData(r));
            }
            lemma_follow_read(m1, r as int, latest_state(m.store, m.accesses[r as int].metadata.id));
        },
    }
}

proof fn lemma_finish_handles_follow(m: ManagerView, hs: Seq<AccessHandleView>, ok: bool)
    requires
        reads_follow(m),
    ensures
        reads_follow(finish_handles(m, hs, ok)),
    decreases hs.len(),
{
    if hs.len() > 0 {
        lemma_finish_handles_follow(m, hs.drop_last(), ok);
        let m1 = finish_handles(m, hs.drop_last(), ok);
        let h = hs.last();
        let a = h.access as int;
        if m1.accesses[a].metadata.access_type == AccessType::Write {
            let st = if ok { h.state } else { m1.accesses[a].read_state->0 };
            lemma_follow_written(m1, a, st);
            assert(finish_handle(m1, h, ok) == set_written_state(m1, a, st));
        }
    }
}

/// Law: finishing the execution of a transaction keeps `reads_follow`.
pub proof fn lemma_execute_keeps_follow(m: ManagerView, t: int, hs: Seq<AccessHandleView>, ok: bool)
    requires
        reads_follow(m),
    ensures
        reads_follow(execute(m, t, hs, ok)),
{
    lemma_finish_handles_follow(m, hs, ok);
    let m1 = finish_handles(m, hs, ok);
    lemma_follow_frame(m1, decrease_pending_txs(m1, m.txs[t].batch as int));
}

// ---------------------------------------------------------------------------------------
// Scheduling

/// What adding accesses keeps for `reads_follow`: the reads queue, and the links and read
/// states of the accesses that were there; each new access follows none and is followed by
/// none, and does not know its read state.
pub open spec fn adds_unlinked(m: ManagerView, m2: ManagerView) -> bool {
    &&& reads_follow(m2)
    &&& m2.accesses.len() >= m.accesses.len()
    &&& m2.reads == m.reads
    &&& forall|q: int|
        0 <= q < m.accesses.len() ==> #[trigger] m2.accesses[q].next == m.accesses[q].next
            && m2.accesses[q].read_state == m.accesses[q].read_state
    &&& forall|y: int|
        m.accesses.len() <= y < m2.accesses.len() ==> #[trigger] m2.accesses[y].next is None
            && m2.accesses[y].read_state is None
}

proof fn lemma_adds_unlinked_trans(m1: ManagerView, m2: ManagerView, m3: ManagerView)
    requires
        adds_unlinked(m1, m2),
        adds_unlinked(m2, m3),
    ensures
        adds_unlinked(m1, m3),
{
    assert forall|q: int| 0 <= q < m1.accesses.len() implies #[trigger] m3.accesses[q].next == m1.accesses[q].next
        && m3.accesses[q].read_state == m1.accesses[q].read_state by {
        assert(m2.accesses[q].next == m1.accesses[q].next);
    }
    assert forall|y: int| m1.accesses.len() <= y < m3.accesses.len() implies #[trigger] m3.accesses[y].next is None
        && m3.accesses[y].read_state is None by {
        if y < m2.accesses.len() {
            assert(m2.accesses[y].next is None);
        }
    }
}

proof fn lemma_add_access_follow(m: ManagerView, t: int, meta: AccessMetadata)
    requires
        reads_follow(m),
    ensures
        adds_unlinked(m, add_access(m, t, meta)),
{
    reveal(follow_links);
    let m2 = add_access(m, t, meta);
    let len = m.accesses.len();
    let b = m.txs[t].batch;
    let last: Option<usize> = if m.resources.contains_key(meta.id) {
        Some(m.resources[meta.id])
    } else {
        None
    };
    let same_batch = match last {
        Some(p) => m.txs[m.accesses[p as int].tx as int].batch == b,
        None => false,
    };
    let m1 = if same_batch {
        m
    } else {
        ManagerView {
            state_diffs: m.state_diffs.push(
                StateDiffView { batch: b, resource_id: meta.id, read_state: None, written_state: None },
            ),
            ..m
        }
    };
    let mb = if same_batch {
        set_access(m1, last->0 as int, AccessView { is_batch_tail: false, ..m1.accesses[last->0 as int] })
    } else {
        m1
    };
    assert(mb.accesses.len() == len);
    assert forall|q: int| 0 <= q < len implies #[trigger] mb.accesses[q].next == m.accesses[q].next
        && mb.accesses[q].prev == m.accesses[q].prev && mb.accesses[q].read_state == m.accesses[q].read_state
        && mb.accesses[q].written_state == m.accesses[q].written_state by {}
    let acc = m2.accesses;
    assert(acc.len() == len + 1);
    assert(acc[len as int].next is None && acc[len as int].read_state is None);
    assert(m2.reads == m.reads);
    assert forall|q: int| 0 <= q < len implies #[trigger] acc[q].next == m.accesses[q].next && acc[q].prev
        == m.accesses[q].prev && acc[q].read_state == m.accesses[q].read_state && acc[q].written_state
        == m.accesses[q].written_state by {
        assert(acc[q] == mb.accesses[q]);
    }
    assert forall|q: int| 0 <= q < acc.len() implies (#[trigger] acc[q].next matches Some(n) ==> q < n < acc.len()) by {
        if q < len {
            assert(acc[q].next == m.accesses[q].next);
        }
    }
    assert forall|q: int| 0 <= q < acc.len() implies (#[trigger] acc[q].prev matches Some(p) ==> p < q) by {
        if q < len {
            assert(acc[q].prev == m.accesses[q].prev);
        }
    }
    assert forall|a1: int, a2: int|
        0 <= a1 < acc.len() && 0 <= a2 < acc.len() && a1 != a2 && (#[trigger] acc[a1].next) is Some implies acc[a1].next
        != #[trigger] acc[a2].next by {
        if a1 < len && a2 < len {
            assert(m.accesses[a1].next != m.accesses[a2].next);
        }
    }
    assert forall|id: u64| #[trigger] m2.resources.contains_key(id) implies m2.resources[id] < acc.len() by {
        if id != meta.id {
            assert(m.resources.contains_key(id));
        }
    }
    assert forall|i: int| 0 <= i < m2.reads.len() implies (#[trigger] m2.reads[i] matches ReadView::LatestData(r) ==> {
        &&& r < acc.len()
        &&& forall|q: int| 0 <= q < acc.len() ==> #[trigger] acc[q].next != Some(r)
    }) by {
        if let ReadView::LatestData(r) = m.reads[i] {
            assert forall|q: int| 0 <= q < acc.len() implies #[trigger] acc[q].next != Some(r) by {
                if q < len {
                    assert(m.accesses[q].next != Some(r));
                }
            }
        }
    }
    assert forall|q: int| 0 <= q < acc.len() implies (#[trigger] acc[q].next matches Some(n) ==> (acc[n as int].read_state
        is Some ==> acc[q].written_state == acc[n as int].read_state)) by {
        if q < len {
            assert(acc[q].next == m.accesses[q].next);
        }
    }
    assert(follow_links(acc, m2.reads, m2.resources));
}

proof fn lemma_add_accesses_follow(m: ManagerView, t: int, metas: Seq<AccessMetadata>)
    requires
        reads_follow(m),
    ensures
        adds_unlinked(m, add_accesses(m, t, metas)),
    decreases metas.len(),
{
    if metas.len() == 0 {
        assert(add_accesses(m, t, metas) == m);
    } else {
        lemma_add_accesses_follow(m, t, metas.drop_last());
        let m1 = add_accesses(m, t, metas.drop_last());
        lemma_add_access_follow(m1, t, metas.last());
        lemma_adds_unlinked_trans(m, m1, add_access(m1, t, metas.last()));
    }
}

proof fn lemma_add_txs_follow(m: ManagerView, b: int, txs: Seq<Seq<AccessMetadata>>)
    requires
        reads_follow(m),
    ensures
        adds_unlinked(m, add_txs(m, b, txs)),
    decreases txs.len(),
{
    if txs.len() == 0 {
        assert(add_txs(m, b, txs) == m);
    } else {
        lemma_add_txs_follow(m, b, txs.drop_last());
        let m1 = add_txs(m, b, txs.drop_last());
        let metas = txs.last();
        let t = m1.txs.len() as int;
        let m1a = ManagerView {
            txs: m1.txs.push(TxView { batch: b as usize, resources: Seq::empty(), pending_resources: 0 }),
            ..m1
        };
        lemma_follow_frame(m1, m1a);
        lemma_add_accesses_follow(m1a, t, metas);
        let m2 = add_accesses(m1a, t, metas);
        let m3 = set_tx(m2, t, TxView { pending_resources: metas.len() as u64, ..m2.txs[t] });
        let m4 = set_batch(m3, b, BatchView { txs: m3.batches[b].txs.push(t as usize), ..m3.batches[b] });
        assert(add_tx(m1, b, metas) == m4);
        lemma_follow_frame(m2, m4);
        assert(adds_unlinked(m1, m4)) by {
            assert forall|q: int| 0 <= q < m1.accesses.len() implies #[trigger] m4.accesses[q].next
                == m1.accesses[q].next && m4.accesses[q].read_state == m1.accesses[q].read_state by {
                assert(m2.accesses[q].next == m1a.accesses[q].next);
            }
            assert forall|y: int| m1.accesses.len() <= y < m4.accesses.len() implies #[trigger] m4.accesses[y].next
                is None && m4.accesses[y].read_state is None by {
                assert(m2.accesses[y].next is None);
            }
        }
        lemma_adds_unlinked_trans(m, m1, m4);
    }
}

/// Accesses `i..` of `m` wait to be connected: they follow none, are followed by none, do
/// not know their read state and are not waiting for storage.
pub open spec fn connecting(m: ManagerView, i: int) -> bool {
    &&& reads_follow(m)
    &&& i <= m.accesses.len()
    &&& forall|y: int| i <= y < m.accesses.len() ==> #[trigger] m.accesses[y].next is None
        && m.accesses[y].read_state is None
    &&& forall|q: int| 0 <= q < m.accesses.len() ==> (#[trigger] m.accesses[q].next matches Some(n) ==> n < i)
    &&& forall|k: int| 0 <= k < m.reads.len() ==> (#[trigger] m.reads[k] matches ReadView::LatestData(r) ==> r < i)
}

proof fn lemma_connect_follow(m: ManagerView, x: int)
    requires
        connecting(m, x),
        0 <= x < m.accesses.len(),
        m.accesses.len() <= usize::MAX,
    ensures
        connecting(connect(m, x), x + 1),
        connect(m, x).accesses.len() == m.accesses.len(),
{
    reveal(follow_links);
    let len = m.accesses.len();
    match m.accesses[x].prev {
        Some(p) => {
            let m1 = set_access(m, p as int, AccessView { next: Some(x as usize), ..m.accesses[p as int] });
            let acc = m1.accesses;
            assert(p < x);
            assert forall|q: int| 0 <= q < len && q != p implies #[trigger] acc[q] == m.accesses[q] by {}
            assert(follow_links(acc, m1.reads, m1.resources)) by {
                assert forall|q: int| 0 <= q < acc.len() implies (#[trigger] acc[q].next matches Some(n) ==> q < n < acc.len()) by {
                    if q != p {
                        assert(acc[q] == m.accesses[q]);
                    }
                }
                assert forall|q: int| 0 <= q < acc.len() implies (#[trigger] acc[q].prev matches Some(p2) ==> p2 < q) by {
                    if q != p {
                        assert(acc[q] == m.accesses[q]);
                    }
                }
                assert forall|a1: int, a2: int|
                    0 <= a1 < acc.len() && 0 <= a2 < acc.len() && a1 != a2 && (#[trigger] acc[a1].next) is Some
                    implies acc[a1].next != #[trigger] acc[a2].next by {
                    if a1 == p {
                        assert(acc[a2] == m.accesses[a2]);
                        if let Some(n2) = m.accesses[a2].next {
                            assert(n2 < x);
                        }
                    } else if a2 == p {
                        assert(acc[a1] == m.accesses[a1]);
                        if let Some(n1) = m.accesses[a1].next {
                            assert(n1 < x);
                        }
                    } else {
                        assert(acc[a1] == m.accesses[a1] && acc[a2] == m.accesses[a2]);
                    }
                }
                assert forall|i: int| 0 <= i < m1.reads.len() implies (#[trigger] m1.reads[i] matches ReadView::LatestData(r) ==> {
                    &&& r < acc.len()
                    &&& forall|q: int| 0 <= q < acc.len() ==> #[trigger] acc[q].next != Some(r)
                }) by {
                    if let ReadView::LatestData(r) = m.reads[i] {
                        assert(r < x);
                        assert forall|q: int| 0 <= q < acc.len() implies #[trigger] acc[q].next != Some(r) by {
                            if q != p {
                                assert(acc[q] == m.accesses[q]);
                            }
                        }
                    }
                }
                assert forall|q: int| 0 <= q < acc.len() implies (#[trigger] acc[q].next matches Some(n) ==> (
                acc[n as int].read_state is Some ==> acc[q].written_state == acc[n as int].read_state)) by {
                    if q != p {
                        assert(acc[q] == m.accesses[q]);
                        if let Some(n) = m.accesses[q].next {
                            assert(n < x);
                            assert(n as int != p || acc[n as int].read_state == m.accesses[n as int].read_state);
                        }
                    } else {
                        assert(acc[x] == m.accesses[x]);
                        assert(m.accesses[x].next is None);
                        assert(m.accesses[x].read_state is None);
                        assert(acc[q].next == Some(x as usize));
                    }
                }
            }
            assert(connecting(m1, x + 1)) by {
                assert forall|y: int| x + 1 <= y < acc.len() implies #[trigger] acc[y].next is None
                    && acc[y].read_state is None by {
                    assert(acc[y] == m.accesses[y]);
                }
                assert forall|q: int| 0 <= q < acc.len() implies (#[trigger] acc[q].next matches Some(n) ==> n < x + 1) by {
                    if q != p {
                        assert(acc[q] == m.accesses[q]);
                    }
                }
            }
            match m1.accesses[p as int].written_state {
                Some(w) => {
                    assert forall|q: int|
                        0 <= q < acc.len() && acc[q].next == Some(x as usize) implies acc[q].written_state == Some(w) by {
                        if q != p {
                            assert(acc[p as int].next is Some);
                            assert(acc[q].next != acc[p as int].next);
                        }
                    }
                    lemma_follow_read(m1, x, w);
                    let m2 = set_read_state(m1, x, w);
                    assert(connect(m, x) == m2);
                    reveal(follow_links);
                    assert forall|y: int| x + 1 <= y < acc.len() implies #[trigger] m2.accesses[y].next is None
                        && m2.accesses[y].read_state is None by {
                        assert(m2.accesses[y].next == acc[y].next);
                        if m2.accesses[y].read_state != acc[y].read_state {
                            let q = choose|q: int| 0 <= q < acc.len() && acc[q].next == Some(y as usize);
                            assert(acc[q].next matches Some(n) && n < x + 1);
                        }
                    }
                    assert forall|q: int| 0 <= q < acc.len() implies (#[trigger] m2.accesses[q].next matches Some(n)
                        ==> n < x + 1) by {
                        assert(m2.accesses[q].next == acc[q].next);
                    }
                },
                None => {},
            }
        },
        None => {
            let m1 = ManagerView { reads: m.reads.push(ReadView::LatestData(x as usize)), ..m };
            assert(connect(m, x) == m1);
            assert forall|i: int| 0 <= i < m1.reads.len() implies (#[trigger] m1.reads[i] matches ReadView::LatestData(r) ==> {
                &&& r < m1.accesses.len()
                &&& forall|q: int| 0 <= q < m1.accesses.len() ==> #[trigger] m1.accesses[q].next != Some(r)
            }) by {
                if i < m.reads.len() {
                    assert(m1.reads[i] == m.reads[i]);
                } else {
                    assert forall|q: int| 0 <= q < m1.accesses.len() implies #[trigger] m1.accesses[q].next != Some(x as usize) by {
                        if let Some(n) = m.accesses[q].next {
                            assert(n < x);
                        }
                    }
                }
            }
            assert forall|k: int| 0 <= k < m1.reads.len() implies (#[trigger] m1.reads[k] matches ReadView::LatestData(r)
                ==> r < x + 1) by {
                if k < m.reads.len() {
                    assert(m1.reads[k] == m.reads[k]);
                }
            }
            assert(follow_links(m1.accesses, m1.reads, m1.resources));
        },
    }
}

proof fn lemma_connect_range_follow(m: ManagerView, lo: int, hi: int)
    requires
        connecting(m, lo),
        0 <= lo <= hi <= m.accesses.len(),
        m.accesses.len() <= usize::MAX,
    ensures
        connecting(connect_range(m, lo, hi), hi),
        connect_range(m, lo, hi).accesses.len() == m.accesses.len(),
    decreases hi - lo,
{
    if hi > lo {
        lemma_connect_range_follow(m, lo, hi - 1);
        lemma_connect_follow(connect_range(m, lo, hi - 1), hi - 1);
    }
}

/// Law: scheduling a batch keeps `reads_follow`: each new access is linked after the last
/// access of its resource and reads what that access writes, or else reads from storage.
pub proof fn lemma_schedule_keeps_follow(m: ManagerView, txs: Seq<Seq<AccessMetadata>>)
    requires
        reads_follow(m),
        schedule(m, txs).accesses.len() <= usize::MAX,
    ensures
        reads_follow(schedule(m, txs)),
{
    let c = m.longest_chain as int;
    let index = m.chains[c].last_batch_index;
    let m1 = ManagerView {
        chains: m.chains.update(c, ChainView { last_batch_index: crate::chain::wrapping_inc(index), ..m.chains[c] }),
        ..m
    };
    let b = m1.batches.len();
    let m2 = ManagerView {
        batches: m1.batches.push(
            BatchView {
                chain: m.longest_chain,
                index,
                txs: Seq::empty(),
                state_diffs: Seq::empty(),
                available_txs: Seq::empty(),
                pending_txs: txs.len() as u64,
                pending_writes: 0,
                was_processed: false,
                was_persisted: false,
                was_committed: false,
            },
        ),
        ..m1
    };
    lemma_follow_frame(m, m2);
    lemma_add_txs_follow(m2, b as int, txs);
    let m3 = add_txs(m2, b as int, txs);
    assert(connecting(m3, m.accesses.len() as int)) by {
        reveal(follow_links);
        assert forall|q: int| 0 <= q < m3.accesses.len() implies (#[trigger] m3.accesses[q].next matches Some(n)
            ==> n < m.accesses.len()) by {
            if q < m.accesses.len() {
                assert(m3.accesses[q].next == m.accesses[q].next);
            }
        }
        assert forall|k: int| 0 <= k < m3.reads.len() implies (#[trigger] m3.reads[k] matches ReadView::LatestData(r)
            ==> r < m.accesses.len()) by {}
    }
    crate::pending::lemma_connect_range_counts(m3, m.accesses.len() as int, m3.accesses.len() as int);
    lemma_connect_range_follow(m3, m.accesses.len() as int, m3.accesses.len() as int);
    assert(schedule(m, txs) == connect_range(m3, m.accesses.len() as int, m3.accesses.len() as int));
}

} // verus!
