//! What committing a batch makes readable.

use vstd::prelude::*;

use crate::codec::{be_bytes, lemma_be_bytes_injective, lemma_from_be_of_be_bytes, pair_key};
use crate::manager::{commit_ops, state_diff_ops, was_canceled, wf_view, ManagerView};
use crate::state::{borsh_state, lemma_decode_encoding};
use crate::store::{apply_op, apply_ops, lemma_apply_ops_concat, StateSpace, StoreView, WriteOpView};
use crate::versioned_state::{data_write, latest_ptr_write, rollback_ptr_write, latest_readable, latest_state, VersionedStateView};

verus! {

/// Every write of `ops` sets a latest pointer, none of them `key`.
pub open spec fn sets_other_ptrs(ops: Seq<WriteOpView>, key: Seq<u8>) -> bool {
    forall|i: int|
        0 <= i < ops.len() ==> match #[trigger] ops[i] {
            WriteOpView::Put(space, k, _) => space == StateSpace::LatestPtr && k != key,
            WriteOpView::Delete(_, _) => false,
        }
}

/// Writes that set only latest pointers other than `key` keep the data and the pointer `key`.
proof fn lemma_other_ptrs_keep(s: StoreView, ops: Seq<WriteOpView>, key: Seq<u8>)
    requires
        sets_other_ptrs(ops, key),
    ensures
        apply_ops(s, ops).data == s.data,
        apply_ops(s, ops).latest_ptr.contains_key(key) == s.latest_ptr.contains_key(key),
        s.latest_ptr.contains_key(key) ==> apply_ops(s, ops).latest_ptr[key] == s.latest_ptr[key],
    decreases ops.len(),
{
    if ops.len() > 0 {
        let init = ops.drop_last();
        assert forall|i: int| 0 <= i < init.len() implies match #[trigger] init[i] {
            WriteOpView::Put(space, k, _) => space == StateSpace::LatestPtr && k != key,
            WriteOpView::Delete(_, _) => false,
        } by {
            assert(init[i] == ops[i]);
        }
        lemma_other_ptrs_keep(s, init, key);
        assert(ops.last() == ops[ops.len() - 1]);
    }
}

/// Law: committing a batch that was not canceled makes the written state of each of its
/// state diffs the latest state of its resource, once the diff's state is stored and no
/// later diff of the batch is for the same resource: reading the latest data then gives
/// that state back.
pub proof fn lemma_commit_reads_back(m: ManagerView, b: int, k: int)
    requires
        wf_view(m),
        0 <= b < m.batches.len(),
        !was_canceled(m, b),
        0 <= k < m.batches[b].state_diffs.len(),
        m.state_diffs[m.batches[b].state_diffs[k] as int].written_state is Some,
        ({
            let w = m.state_diffs[m.batches[b].state_diffs[k] as int].written_state->0;
            &&& w.data.len() <= u32::MAX
            &&& m.store.data.contains_key(pair_key(w.version, w.resource_id))
            &&& m.store.data[pair_key(w.version, w.resource_id)] == borsh_state(w.owner, w.data, w.balance)
            &&& forall|k2: int|
                k < k2 < m.batches[b].state_diffs.len() ==> (#[trigger] m.state_diffs[m.batches[b].state_diffs[k2] as int]).written_state->0.resource_id
                    != w.resource_id
        }),
    ensures
        ({
            let w = m.state_diffs[m.batches[b].state_diffs[k] as int].written_state->0;
            let s2 = apply_ops(m.store, commit_ops(m, b));
            &&& latest_readable(s2, w.resource_id)
            &&& latest_state(s2, w.resource_id) == w
        }),
{
    let diffs = m.batches[b].state_diffs;
    let w = m.state_diffs[diffs[k] as int].written_state->0;
    let key = be_bytes(w.resource_id);
    let ops = commit_ops(m, b);
    assert(ops == diffs.map_values(|d: usize| latest_ptr_write(m.state_diffs[d as int].written_state->0)));
    let pre = ops.take(k + 1);
    let post = ops.skip(k + 1);
    assert(ops == pre + post);
    lemma_apply_ops_concat(m.store, pre, post);
    let init = pre.drop_last();
    // The pointers before the diff only touch latest pointers; the data stays.
    assert forall|i: int| 0 <= i < init.len() implies match #[trigger] init[i] {
        WriteOpView::Put(space, _, _) => space == StateSpace::LatestPtr,
        WriteOpView::Delete(_, _) => false,
    } by {
        assert(init[i] == ops[i]);
    }
    lemma_ptrs_keep_data(m.store, init);
    let s1 = apply_ops(m.store, pre);
    assert(pre.last() == ops[k]);
    assert(s1.latest_ptr == apply_ops(m.store, init).latest_ptr.insert(key, be_bytes(w.version)));
    assert(s1.data == m.store.data);
    assert(sets_other_ptrs(post, key)) by {
        assert forall|i: int| 0 <= i < post.len() implies match #[trigger] post[i] {
            WriteOpView::Put(space, k3, _) => space == StateSpace::LatestPtr && k3 != key,
            WriteOpView::Delete(_, _) => false,
        } by {
            assert(post[i] == ops[i + k + 1]);
            let w2 = m.state_diffs[diffs[i + k + 1] as int].written_state->0;
            assert(w2.resource_id != w.resource_id);
            lemma_be_bytes_injective(w2.resource_id, w.resource_id);
        }
    }
    lemma_other_ptrs_keep(s1, post, key);
    lemma_from_be_of_be_bytes(w.version);
    lemma_decode_encoding(w.owner, w.data, w.balance);
}

/// Law: writing state diff `d` stores the encoded written state under the written
/// version, and records under the batch's index the version its resource had before the
/// batch; nothing becomes latest.
pub proof fn lemma_state_diff_stores(m: ManagerView, d: int)
    requires
        wf_view(m),
        0 <= d < m.state_diffs.len(),
    ensures
        ({
            let x = m.state_diffs[d];
            let w = x.written_state->0;
            let r = x.read_state->0;
            let s2 = apply_ops(m.store, state_diff_ops(m, d));
            &&& s2.data == m.store.data.insert(
                pair_key(w.version, w.resource_id),
                borsh_state(w.owner, w.data, w.balance),
            )
            &&& s2.rollback_ptr == m.store.rollback_ptr.insert(
                pair_key(m.batches[x.batch as int].index, r.resource_id),
                be_bytes(r.version),
            )
            &&& s2.latest_ptr == m.store.latest_ptr
        }),
{
    let x = m.state_diffs[d];
    let w = x.written_state->0;
    let r = x.read_state->0;
    let ops = state_diff_ops(m, d);
    assert(ops.drop_last() =~= seq![data_write(w)]);
    assert(ops.drop_last().drop_last() =~= Seq::<WriteOpView>::empty());
    assert(apply_ops(m.store, ops.drop_last().drop_last()) == m.store);
    let s1 = apply_ops(m.store, ops.drop_last());
    assert(s1 == apply_op(m.store, data_write(w)));
    assert(ops.last() == rollback_ptr_write(r, m.batches[x.batch as int].index));
    assert(apply_ops(m.store, ops) == apply_op(s1, ops.last()));
}

/// Writes that set only latest pointers keep the data.
proof fn lemma_ptrs_keep_data(s: StoreView, ops: Seq<WriteOpView>)
    requires
        forall|i: int|
            0 <= i < ops.len() ==> match #[trigger] ops[i] {
                WriteOpView::Put(space, _, _) => space == StateSpace::LatestPtr,
                WriteOpView::Delete(_, _) => false,
            },
    ensures
        apply_ops(s, ops).data == s.data,
    decreases ops.len(),
{
    if ops.len() > 0 {
        let init = ops.drop_last();
        assert forall|i: int| 0 <= i < init.len() implies match #[trigger] init[i] {
            WriteOpView::Put(space, _, _) => space == StateSpace::LatestPtr,
            WriteOpView::Delete(_, _) => false,
        } by {
            assert(init[i] == ops[i]);
        }
        lemma_ptrs_keep_data(s, init);
        assert(ops.last() == ops[ops.len() - 1]);
    }
}

} // verus!
