//! Reverting the state changes of a range of batches.

use vstd::prelude::*;

use crate::codec::{
    be_bytes, from_be, pair_key, u64_from_be_bytes, u64_from_be_bytes_at, u64_to_be_bytes, concat_be,
    lemma_be_bytes_injective, lemma_be_bytes_of_from_be, lemma_from_be_of_be_bytes,
};
use crate::versioned_state::{
    data_write, decoded_state, empty_state, latest_ptr_write, latest_readable, latest_state, latest_version,
    rollback_ptr_write, VersionedStateView,
};
use crate::state::{borsh_state, decodable, decoded, encodes};
use crate::store::{apply_op, 
    apply_ops, lemma_apply_ops_concat, StateSpace, Store, StoreView, WriteBatch, WriteOpView,
};

verus! {

/// The batch index of a rollback pointer key `batch_index || resource_id`.
pub open spec fn ptr_index(k: Seq<u8>) -> u64 {
    from_be(k)
}

/// The resource id bytes of a rollback pointer key `batch_index || resource_id`.
pub open spec fn ptr_resource(k: Seq<u8>) -> Seq<u8> {
    k.subrange(8, 16)
}

/// The shape of the pointers that a rollback decodes: rollback keys are
/// `batch_index || resource_id` and pointer values hold at least a version.
pub open spec fn rollback_layout(s: StoreView) -> bool {
    &&& forall|k: Seq<u8>|
        #[trigger] s.rollback_ptr.contains_key(k) ==> k.len() == 16 && s.rollback_ptr[k].len() >= 8
    &&& forall|k: Seq<u8>| #[trigger] s.latest_ptr.contains_key(k) ==> s.latest_ptr[k].len() >= 8
}

/// Whether the pointers of `store` have the shape that `rollback_layout` describes.
pub fn has_rollback_layout(store: &Store) -> (r: bool)
    requires
        store.wf(),
    ensures
        r == rollback_layout(store@),
{
    let all: Vec<u8> = Vec::new();
    let ptrs = store.prefix_iter(StateSpace::RollbackPtr, &all);
    let latest = store.prefix_iter(StateSpace::LatestPtr, &all);
    let ghost s = store@;
    let mut i: usize = 0;
    while i < ptrs.len()
        invariant
            s == store@,
            i <= ptrs@.len(),
            forall|j: int|
                0 <= j < ptrs@.len() ==> s.rollback_ptr.contains_key((#[trigger] ptrs@[j]).0@)
                    && s.rollback_ptr[ptrs@[j].0@] == ptrs@[j].1@,
            forall|j: int| 0 <= j < i ==> (#[trigger] ptrs@[j]).0@.len() == 16 && ptrs@[j].1@.len() >= 8,
        decreases ptrs@.len() - i,
    {
        if ptrs[i].0.len() != 16 || ptrs[i].1.len() < 8 {
            assert(s.rollback_ptr.contains_key(ptrs@[i as int].0@));
            return false;
        }
        i = i + 1;
    }
    let mut i: usize = 0;
    while i < latest.len()
        invariant
            s == store@,
            i <= latest@.len(),
            forall|j: int|
                0 <= j < latest@.len() ==> s.latest_ptr.contains_key((#[trigger] latest@[j]).0@)
                    && s.latest_ptr[latest@[j].0@] == latest@[j].1@,
            forall|j: int| 0 <= j < i ==> (#[trigger] latest@[j]).1@.len() >= 8,
        decreases latest@.len() - i,
    {
        if latest[i].1.len() < 8 {
            assert(s.latest_ptr.contains_key(latest@[i as int].0@));
            return false;
        }
        i = i + 1;
    }
    proof {
        assert forall|k: Seq<u8>| #[trigger] s.rollback_ptr.contains_key(k) implies k.len() == 16
            && s.rollback_ptr[k].len() >= 8 by {
            assert(k.subrange(0, 0) =~= all@);
            assert(s.space(StateSpace::RollbackPtr).contains_key(k));
            let j = choose|j: int| 0 <= j < ptrs@.len() && ptrs@[j].0@ == k;
            assert(ptrs@[j].0@.len() == 16);
        }
        assert forall|k: Seq<u8>| #[trigger] s.latest_ptr.contains_key(k) implies s.latest_ptr[k].len() >= 8 by {
            assert(k.subrange(0, 0) =~= all@);
            assert(s.space(StateSpace::LatestPtr).contains_key(k));
            let j = choose|j: int| 0 <= j < latest@.len() && latest@[j].0@ == k;
            assert(latest@[j].1@.len() >= 8);
        }
    }
    true
}

/// A write keeps `rollback_layout`.
pub open spec fn layout_safe(op: WriteOpView) -> bool {
    match op {
        WriteOpView::Put(StateSpace::RollbackPtr, k, v) => k.len() == 16 && v.len() >= 8,
        WriteOpView::Put(StateSpace::LatestPtr, _k, v) => v.len() >= 8,
        _ => true,
    }
}

/// Writes that each keep the layout keep it together.
pub proof fn lemma_layout_apply_ops(s: StoreView, ops: Seq<WriteOpView>)
    requires
        rollback_layout(s),
        forall|i: int| 0 <= i < ops.len() ==> layout_safe(#[trigger] ops[i]),
    ensures
        rollback_layout(apply_ops(s, ops)),
    decreases ops.len(),
{
    if ops.len() > 0 {
        let init = ops.drop_last();
        assert forall|i: int| 0 <= i < init.len() implies layout_safe(#[trigger] init[i]) by {
            assert(init[i] == ops[i]);
        }
        lemma_layout_apply_ops(s, init);
        let s1 = apply_ops(s, init);
        assert(layout_safe(ops[ops.len() - 1]));
        let s2 = apply_ops(s, ops);
        assert forall|k: Seq<u8>| #[trigger] s2.rollback_ptr.contains_key(k) implies k.len() == 16
            && s2.rollback_ptr[k].len() >= 8 by {
            if s1.rollback_ptr.contains_key(k) {
            }
        }
        assert forall|k: Seq<u8>| #[trigger] s2.latest_ptr.contains_key(k) implies s2.latest_ptr[k].len() >= 8 by {
            if s1.latest_ptr.contains_key(k) {
            }
        }
    }
}

/// The rollback pointers of `s` whose batch index lies in `lo..=hi`.
pub open spec fn range_keys(s: StoreView, lo: int, hi: int) -> Set<Seq<u8>> {
    Set::new(|k: Seq<u8>| s.rollback_ptr.contains_key(k) && lo <= ptr_index(k) <= hi)
}

/// `k` is the pointer of `keys` with the lowest batch index for its resource.
pub open spec fn oldest_in(keys: Set<Seq<u8>>, k: Seq<u8>) -> bool {
    &&& keys.contains(k)
    &&& forall|k2: Seq<u8>|
        #[trigger] keys.contains(k2) && ptr_resource(k2) == ptr_resource(k) ==> ptr_index(k) <= ptr_index(k2)
}

/// Undoing pointer `k` drops `d`: `d` is the data key of the version that `s` names as
/// latest for the resource of `k`, and that version is newer than the one `k` restores, so a
/// batch being rolled back wrote it.
pub open spec fn is_dropped_data_key(s: StoreView, k: Seq<u8>, d: Seq<u8>) -> bool {
    &&& s.latest_ptr.contains_key(ptr_resource(k))
    &&& from_be(s.latest_ptr[ptr_resource(k)]) > from_be(s.rollback_ptr[k])
    &&& d == be_bytes(from_be(s.latest_ptr[ptr_resource(k)])) + ptr_resource(k)
}

/// `s1` is `s0` with the rollback pointers `keys` undone: the pointers are gone, each
/// touched resource's latest pointer holds the version recorded by its oldest pointer
/// (or is gone if that version is 0), and the data of each touched resource's version
/// that was latest in `s0` is gone where a pointer restores an older version. Everything
/// else is as in `s0`.
pub open spec fn undone(s0: StoreView, s1: StoreView, keys: Set<Seq<u8>>) -> bool {
    &&& forall|k: Seq<u8>|
        #[trigger] s1.rollback_ptr.contains_key(k) == (s0.rollback_ptr.contains_key(k) && !keys.contains(k))
    &&& forall|k: Seq<u8>|
        #[trigger] s1.rollback_ptr.contains_key(k) ==> s1.rollback_ptr[k] == s0.rollback_ptr[k]
    &&& forall|rk: Seq<u8>|
        (forall|k: Seq<u8>| #[trigger] keys.contains(k) ==> ptr_resource(k) != rk) ==> {
            &&& #[trigger] s1.latest_ptr.contains_key(rk) == s0.latest_ptr.contains_key(rk)
            &&& s1.latest_ptr.contains_key(rk) ==> s1.latest_ptr[rk] == s0.latest_ptr[rk]
        }
    &&& forall|k: Seq<u8>|
        #[trigger] oldest_in(keys, k) ==> {
            let ov = from_be(s0.rollback_ptr[k]);
            if ov == 0 {
                !s1.latest_ptr.contains_key(ptr_resource(k))
            } else {
                s1.latest_ptr.contains_key(ptr_resource(k)) && s1.latest_ptr[ptr_resource(k)] == be_bytes(ov)
            }
        }
    &&& forall|d: Seq<u8>|
        #[trigger] s1.data.contains_key(d) == (s0.data.contains_key(d) && !exists|k: Seq<u8>|
            keys.contains(k) && #[trigger] is_dropped_data_key(s0, k, d))
    &&& forall|d: Seq<u8>| #[trigger] s1.data.contains_key(d) ==> s1.data[d] == s0.data[d]
}

/// The store after rolling back batches `lo..=hi` of `s0`.
pub open spec fn rolled_back(s0: StoreView, s1: StoreView, lo: int, hi: int) -> bool {
    undone(s0, s1, range_keys(s0, lo, hi))
}

/// The writes that undo one rollback pointer: drop the data of the latest version if it is
/// newer than `old_version`, restore the latest pointer to `old_version` (or remove it for
/// 0), and drop the pointer.
pub open spec fn rollback_ptr_ops(s: StoreView, batch_index: u64, rid: u64, old_version: u64) -> Seq<
    WriteOpView,
> {
    let rk = be_bytes(rid);
    let drop_data = if s.latest_ptr.contains_key(rk) && from_be(s.latest_ptr[rk]) > old_version {
        seq![WriteOpView::Delete(StateSpace::Data, pair_key(from_be(s.latest_ptr[rk]), rid))]
    } else {
        Seq::empty()
    };
    let restore = if old_version == 0 {
        WriteOpView::Delete(StateSpace::LatestPtr, rk)
    } else {
        WriteOpView::Put(StateSpace::LatestPtr, rk, be_bytes(old_version))
    };
    drop_data + seq![restore, WriteOpView::Delete(StateSpace::RollbackPtr, pair_key(batch_index, rid))]
}

/// A 16-byte pointer key is its batch index and resource id, re-encoded.
proof fn lemma_ptr_key_parts(k: Seq<u8>)
    requires
        k.len() == 16,
    ensures
        be_bytes(from_be(ptr_resource(k))) == ptr_resource(k),
        pair_key(ptr_index(k), from_be(ptr_resource(k))) == k,
        ptr_resource(k).len() == 8,
{
    lemma_be_bytes_of_from_be(k);
    lemma_be_bytes_of_from_be(ptr_resource(k));
    assert(ptr_resource(k).subrange(0, 8) =~= ptr_resource(k));
    assert(k.subrange(0, 8) + k.subrange(8, 16) =~= k);
}

/// Undoing one more pointer, older than or as old as all undone ones, keeps `undone`.
proof fn lemma_undo_step(s0: StoreView, s: StoreView, keys: Set<Seq<u8>>, k: Seq<u8>)
    requires
        rollback_layout(s0),
        undone(s0, s, keys),
        s0.rollback_ptr.contains_key(k),
        !keys.contains(k),
        forall|r: Seq<u8>| #[trigger] keys.contains(r) ==> ptr_index(k) <= ptr_index(r) && r.len() == 16,
    ensures
        undone(
            s0,
            apply_ops(
                s,
                rollback_ptr_ops(s0, ptr_index(k), from_be(ptr_resource(k)), from_be(s0.rollback_ptr[k])),
            ),
            keys.insert(k),
        ),
{
    let rk = ptr_resource(k);
    let rid = from_be(rk);
    let ov = from_be(s0.rollback_ptr[k]);
    lemma_ptr_key_parts(k);
    let ops = rollback_ptr_ops(s0, ptr_index(k), rid, ov);
    let restore = if ov == 0 {
        WriteOpView::Delete(StateSpace::LatestPtr, rk)
    } else {
        WriteOpView::Put(StateSpace::LatestPtr, rk, be_bytes(ov))
    };
    let tail = seq![restore, WriteOpView::Delete(StateSpace::RollbackPtr, k)];
    let dk = be_bytes(from_be(s0.latest_ptr[rk])) + rk;
    let drops = s0.latest_ptr.contains_key(rk) && from_be(s0.latest_ptr[rk]) > ov;
    let s_mid = if drops {
        s.delete(StateSpace::Data, dk)
    } else {
        s
    };
    assert(pair_key(from_be(s0.latest_ptr[rk]), rid) == dk);
    if drops {
        let head = seq![WriteOpView::Delete(StateSpace::Data, dk)];
        assert(ops =~= head + tail);
        lemma_apply_ops_concat(s, head, tail);
        assert(head.drop_last() =~= Seq::<WriteOpView>::empty());
        assert(apply_ops(s, head.drop_last()) == s);
        assert(apply_ops(s, head) == s_mid);
    } else {
        assert(ops =~= tail);
    }
    assert(tail.drop_last() =~= seq![restore]);
    assert(tail.drop_last().drop_last() =~= Seq::<WriteOpView>::empty());
    let s_l = if ov == 0 {
        s_mid.delete(StateSpace::LatestPtr, rk)
    } else {
        s_mid.put(StateSpace::LatestPtr, rk, be_bytes(ov))
    };
    assert(apply_ops(s_mid, tail.drop_last().drop_last()) == s_mid);
    assert(apply_ops(s_mid, tail.drop_last()) == s_l);
    assert(apply_ops(s_mid, tail) == s_l.delete(StateSpace::RollbackPtr, k));
    let s1 = s_l.delete(StateSpace::RollbackPtr, k);
    assert(apply_ops(s, ops) == s1);
    let nk = keys.insert(k);
    // rollback pointers
    assert forall|x: Seq<u8>| #[trigger] s1.rollback_ptr.contains_key(x) == (s0.rollback_ptr.contains_key(x)
        && !nk.contains(x)) by {
        assert(s.rollback_ptr.contains_key(x) == (s0.rollback_ptr.contains_key(x) && !keys.contains(x)));
    }
    assert forall|x: Seq<u8>| #[trigger] s1.rollback_ptr.contains_key(x) implies s1.rollback_ptr[x]
        == s0.rollback_ptr[x] by {
        assert(s.rollback_ptr.contains_key(x));
    }
    // untouched latest pointers
    assert forall|x: Seq<u8>|
        (forall|r: Seq<u8>| #[trigger] nk.contains(r) ==> ptr_resource(r) != x) implies {
            &&& #[trigger] s1.latest_ptr.contains_key(x) == s0.latest_ptr.contains_key(x)
            &&& s1.latest_ptr.contains_key(x) ==> s1.latest_ptr[x] == s0.latest_ptr[x]
        } by {
        assert(nk.contains(k));
        assert(x != rk);
        assert forall|r: Seq<u8>| #[trigger] keys.contains(r) implies ptr_resource(r) != x by {
            assert(nk.contains(r));
        }
        assert(s.latest_ptr.contains_key(x) == s0.latest_ptr.contains_key(x));
    }
    // oldest pointers
    assert forall|x: Seq<u8>| #[trigger] oldest_in(nk, x) implies {
        let xv = from_be(s0.rollback_ptr[x]);
        if xv == 0 {
            !s1.latest_ptr.contains_key(ptr_resource(x))
        } else {
            s1.latest_ptr.contains_key(ptr_resource(x)) && s1.latest_ptr[ptr_resource(x)] == be_bytes(xv)
        }
    } by {
        if ptr_resource(x) == rk {
            if x != k {
                assert(keys.contains(x));
                assert(nk.contains(k));
                assert(ptr_index(x) <= ptr_index(k));
                assert(ptr_index(k) <= ptr_index(x));
                lemma_ptr_key_parts(x);
                assert(x == k);
            }
        } else {
            assert(x != k);
            assert(keys.contains(x));
            assert forall|k2: Seq<u8>| #[trigger] keys.contains(k2) && ptr_resource(k2) == ptr_resource(x)
                implies ptr_index(x) <= ptr_index(k2) by {
                assert(nk.contains(k2));
            }
            assert(oldest_in(keys, x));
        }
    }
    // data
    assert forall|d: Seq<u8>| #[trigger] s1.data.contains_key(d) == (s0.data.contains_key(d) && !exists|r: Seq<u8>|
        nk.contains(r) && #[trigger] is_dropped_data_key(s0, r, d)) by {
        let old_dropped = exists|r: Seq<u8>| keys.contains(r) && #[trigger] is_dropped_data_key(s0, r, d);
        let new_dropped = exists|r: Seq<u8>| nk.contains(r) && #[trigger] is_dropped_data_key(s0, r, d);
        assert(s.data.contains_key(d) == (s0.data.contains_key(d) && !old_dropped));
        if is_dropped_data_key(s0, k, d) {
            assert(nk.contains(k));
            assert(new_dropped);
            assert(d == dk);
        }
        if new_dropped {
            let r = choose|r: Seq<u8>| nk.contains(r) && #[trigger] is_dropped_data_key(s0, r, d);
            if r != k {
                assert(keys.contains(r));
                assert(old_dropped);
            }
        }
        if old_dropped {
            let r = choose|r: Seq<u8>| keys.contains(r) && #[trigger] is_dropped_data_key(s0, r, d);
            assert(nk.contains(r));
        }
        if drops && d == dk {
            assert(is_dropped_data_key(s0, k, d));
        }
    }
    assert forall|d: Seq<u8>| #[trigger] s1.data.contains_key(d) implies s1.data[d] == s0.data[d] by {
        assert(s.data.contains_key(d));
    }
}


/// Two keys `be(a) || x` and `be(b) || y` are equal only if `a == b` and `x == y`.
proof fn lemma_be_prefix_split(a: u64, x: Seq<u8>, b: u64, y: Seq<u8>)
    ensures
        be_bytes(a) + x == be_bytes(b) + y ==> a == b && x == y,
{
    if be_bytes(a) + x == be_bytes(b) + y {
        lemma_from_be_of_be_bytes(a);
        lemma_from_be_of_be_bytes(b);
        assert((be_bytes(a) + x).subrange(0, 8) =~= be_bytes(a));
        assert((be_bytes(b) + y).subrange(0, 8) =~= be_bytes(b));
        lemma_be_bytes_injective(a, b);
        assert(x =~= (be_bytes(a) + x).subrange(8, (be_bytes(a) + x).len() as int));
        assert(y =~= (be_bytes(b) + y).subrange(8, (be_bytes(b) + y).len() as int));
    }
}

/// The state a rollback restores through pointer `k`: the version `k` recorded, with the
/// state `s0` holds encoded for it, or the empty state for version 0.
pub open spec fn restored_state(s0: StoreView, k: Seq<u8>) -> VersionedStateView {
    let id = from_be(ptr_resource(k));
    let ov = from_be(s0.rollback_ptr[k]);
    if ov == 0 {
        empty_state(id)
    } else {
        decoded_state(id, ov, s0.data[pair_key(ov, id)])
    }
}

/// Law: rolling back batches `lo..=hi` restores every touched resource to the state that
/// its oldest pointer in the range recorded, readable, provided that state is stored
/// and the later pointers of the resource recorded no older version.
pub proof fn lemma_rolled_back_restores(s0: StoreView, s1: StoreView, lo: int, hi: int, k: Seq<u8>)
    requires
        rollback_layout(s0),
        rolled_back(s0, s1, lo, hi),
        oldest_in(range_keys(s0, lo, hi), k),
        forall|k2: Seq<u8>|
            #[trigger] range_keys(s0, lo, hi).contains(k2) && ptr_resource(k2) == ptr_resource(k) ==> from_be(
                s0.rollback_ptr[k2],
            ) >= from_be(s0.rollback_ptr[k]),
        from_be(s0.rollback_ptr[k]) != 0 ==> s0.data.contains_key(
            pair_key(from_be(s0.rollback_ptr[k]), from_be(ptr_resource(k))),
        ) && decodable(s0.data[pair_key(from_be(s0.rollback_ptr[k]), from_be(ptr_resource(k)))]),
    ensures
        latest_readable(s1, from_be(ptr_resource(k))),
        latest_state(s1, from_be(ptr_resource(k))) == restored_state(s0, k),
{
    let keys = range_keys(s0, lo, hi);
    let rk = ptr_resource(k);
    let id = from_be(rk);
    let ov = from_be(s0.rollback_ptr[k]);
    lemma_ptr_key_parts(k);
    lemma_from_be_of_be_bytes(ov);
    if ov != 0 {
        let dk = pair_key(ov, id);
        assert(!exists|k2: Seq<u8>| keys.contains(k2) && #[trigger] is_dropped_data_key(s0, k2, dk)) by {
            if exists|k2: Seq<u8>| keys.contains(k2) && #[trigger] is_dropped_data_key(s0, k2, dk) {
                let k2 = choose|k2: Seq<u8>| keys.contains(k2) && #[trigger] is_dropped_data_key(s0, k2, dk);
                let rk2 = ptr_resource(k2);
                let cv = from_be(s0.latest_ptr[rk2]);
                lemma_be_prefix_split(ov, rk, cv, rk2);
                assert(rk2 == rk && cv == ov);
                assert(from_be(s0.rollback_ptr[k2]) >= ov);
            }
        }
        assert(s1.data.contains_key(dk));
    }
}

/// Law: when a batch that read state `r` of a resource and wrote state `w` has stored its
/// state diff and committed, rolling back a range of batches that starts at that batch
/// restores `r` as the latest state of the resource. Where the batch only read the resource
/// (`w` is `r`), the later pointers of the resource in the range must record no
/// older version. The store is assumed to name a latest pointer exactly for resources that
/// exist (version above 0), written as the eight bytes of the version.
pub proof fn lemma_rollback_restores_read_state(
    s: StoreView,
    r: VersionedStateView,
    w: VersionedStateView,
    batch_index: u64,
    upper_bound: u64,
    s2: StoreView,
)
    requires
        r.resource_id == w.resource_id,
        r.version != w.version || w == r && forall|k2: Seq<u8>|
            #[trigger] s.rollback_ptr.contains_key(k2) && ptr_resource(k2) == be_bytes(r.resource_id)
                && batch_index <= ptr_index(k2) <= upper_bound ==> from_be(s.rollback_ptr[k2]) >= r.version,
        batch_index <= upper_bound,
        latest_readable(s, r.resource_id),
        latest_state(s, r.resource_id) == r,
        latest_version(s, r.resource_id) == (if r.version == 0 { None::<u64> } else { Some(r.version) }),
        s.latest_ptr.contains_key(be_bytes(r.resource_id)) ==> s.latest_ptr[be_bytes(r.resource_id)] == be_bytes(
            r.version,
        ),
        rolled_back(
            apply_ops(s, seq![data_write(w), rollback_ptr_write(r, batch_index), latest_ptr_write(w)]),
            s2,
            batch_index as int,
            upper_bound as int,
        ),
    ensures
        latest_readable(s2, r.resource_id),
        latest_state(s2, r.resource_id) == r,
{
    let id = r.resource_id;
    let ops = seq![data_write(w), rollback_ptr_write(r, batch_index), latest_ptr_write(w)];
    assert(ops.drop_last() =~= seq![data_write(w), rollback_ptr_write(r, batch_index)]);
    assert(ops.drop_last().drop_last() =~= seq![data_write(w)]);
    assert(ops.drop_last().drop_last().drop_last() =~= Seq::<WriteOpView>::empty());
    let s1a = apply_op(s, data_write(w));
    assert(apply_ops(s, ops.drop_last().drop_last().drop_last()) == s);
    assert(apply_ops(s, ops.drop_last().drop_last()) == s1a);
    let s1b = apply_op(s1a, rollback_ptr_write(r, batch_index));
    assert(apply_ops(s, ops.drop_last()) == s1b);
    let s1 = apply_op(s1b, latest_ptr_write(w));
    assert(apply_ops(s, ops) == s1);
    let k = pair_key(batch_index, id);
    let rk = be_bytes(id);
    crate::codec::lemma_pair_key_injective(batch_index, id, 0, 0);
    lemma_from_be_of_be_bytes(batch_index);
    lemma_from_be_of_be_bytes(r.version);
    lemma_from_be_of_be_bytes(w.version);
    assert(s1.rollback_ptr.contains_key(k));
    assert(s1.rollback_ptr[k] == be_bytes(r.version));
    assert(ptr_index(k) == batch_index) by {
        assert(k.subrange(0, 8) == be_bytes(batch_index));
        lemma_be_bytes_of_from_be(k);
    }
    assert(ptr_resource(k) == rk);
    let keys = range_keys(s1, batch_index as int, upper_bound as int);
    assert(keys.contains(k));
    assert(oldest_in(keys, k));
    assert(s1.latest_ptr[rk] == be_bytes(w.version));
    if r.version == 0 {
        assert(!s2.latest_ptr.contains_key(rk));
        assert(latest_version(s2, id) is None);
    } else {
        assert(s2.latest_ptr.contains_key(rk) && s2.latest_ptr[rk] == be_bytes(r.version));
        let dk = pair_key(r.version, id);
        assert(s.data.contains_key(dk));
        lemma_be_bytes_injective(r.version, w.version);
        lemma_be_prefix_split(r.version, rk, w.version, rk);
        if r.version == w.version {
            let f = decoded(s.data[dk]);
            assert(encodes(s.data[dk], f.0, f.1, f.2));
            assert(s.data[dk] == borsh_state(r.owner, r.data, r.balance));
        }
        assert(s1.data.contains_key(dk) && s1.data[dk] == s.data[dk]);
        assert(!exists|k2: Seq<u8>| keys.contains(k2) && #[trigger] is_dropped_data_key(s1, k2, dk)) by {
            if exists|k2: Seq<u8>| keys.contains(k2) && #[trigger] is_dropped_data_key(s1, k2, dk) {
                let k2 = choose|k2: Seq<u8>| keys.contains(k2) && #[trigger] is_dropped_data_key(s1, k2, dk);
                let rk2 = ptr_resource(k2);
                let cv = from_be(s1.latest_ptr[rk2]);
                assert(dk == be_bytes(cv) + rk2);
                lemma_be_prefix_split(r.version, rk, cv, rk2);
                assert(rk2 == rk);
                assert(cv == w.version);
                assert(r.version == w.version);
                if k2 != k {
                    assert(s.rollback_ptr.contains_key(k2));
                    assert(s1.rollback_ptr[k2] == s.rollback_ptr[k2]);
                    assert(from_be(s.rollback_ptr[k2]) >= r.version);
                }
            }
        }
        assert(s2.data.contains_key(dk));
        assert(s2.data[dk] == s1.data[dk]);
    }
}

/// Reverts the state changes made by the batches of an inclusive index range.
pub struct Rollback {
    lower_bound: u64,
    upper_bound: u64,
    done_signal: Latch,
}

impl Rollback {
    /// A rollback of batches `lower_bound..=upper_bound`, not yet done.
    pub fn new(lower_bound: u64, upper_bound: u64) -> (r: Rollback)
        ensures
            r.lower_bound() == lower_bound,
            r.upper_bound() == upper_bound,
            !r.is_done(),
    {
        Rollback { lower_bound, upper_bound, done_signal: Latch::new() }
    }

    pub closed spec fn lower_bound(&self) -> u64 {
        self.lower_bound
    }

    pub closed spec fn upper_bound(&self) -> u64 {
        self.upper_bound
    }

    pub closed spec fn is_done(&self) -> bool {
        self.done_signal@
    }

    /// Whether the rollback has completed.
    pub fn was_done(&self) -> (r: bool)
        ensures
            r == self.is_done(),
    {
        self.done_signal.is_open()
    }

    /// Commits the pending writes, then the rollback, and returns a fresh write batch.
    pub fn execute(&self, store: &mut Store, write_batch: WriteBatch) -> (r: WriteBatch)
        requires
            old(store).wf(),
            rollback_layout(apply_ops(old(store)@, write_batch@)),
        ensures
            final(store).wf(),
            rolled_back(
                apply_ops(old(store)@, write_batch@),
                final(store)@,
                self.lower_bound() as int,
                self.upper_bound() as int,
            ),
            rollback_layout(final(store)@),
            r@ == Seq::<WriteOpView>::empty(),
    {
        store.commit(write_batch);
        let rollback_batch = self.build_rollback_batch(store);
        proof {
            lemma_layout_apply_ops(store@, rollback_batch@);
        }
        store.commit(rollback_batch);
        store.write_batch()
    }

    /// Signals that the rollback has completed.
    pub fn done(&mut self)
        ensures
            final(self).is_done(),
            final(self).lower_bound() == old(self).lower_bound(),
            final(self).upper_bound() == old(self).upper_bound(),
    {
        self.done_signal.open();
    }

    /// The writes that roll back batches `lower_bound..=upper_bound`, newest batch first.
    fn build_rollback_batch(&self, store: &Store) -> (r: WriteBatch)
        requires
            store.wf(),
            rollback_layout(store@),
        ensures
            rolled_back(store@, apply_ops(store@, r@), self.lower_bound as int, self.upper_bound as int),
            forall|i: int| 0 <= i < r@.len() ==> layout_safe(#[trigger] r@[i]),
    {
        let ghost s0 = store@;
        let lo = self.lower_bound;
        let hi = self.upper_bound;
        let mut write_batch = store.write_batch();
        proof {
            assert(apply_ops(s0, write_batch@) == s0);
            assert(range_keys(s0, hi + 1, hi as int) =~= Set::<Seq<u8>>::empty());
            assert(undone(s0, s0, Set::<Seq<u8>>::empty()));
        }
        if lo > hi {
            proof {
                assert(range_keys(s0, lo as int, hi as int) =~= Set::<Seq<u8>>::empty());
            }
            return write_batch;
        }
        let mut index = hi;
        loop
            invariant_except_break
                undone(s0, apply_ops(s0, write_batch@), range_keys(s0, index + 1, hi as int)),
            invariant
                forall|i: int| 0 <= i < write_batch@.len() ==> layout_safe(#[trigger] write_batch@[i]),
                store.wf(),
                s0 == store@,
                rollback_layout(s0),
                lo <= index <= hi,
            ensures
                undone(s0, apply_ops(s0, write_batch@), range_keys(s0, lo as int, hi as int)),
                forall|i: int| 0 <= i < write_batch@.len() ==> layout_safe(#[trigger] write_batch@[i]),
            decreases index,
        {
            let prefix = u64_to_be_bytes(index);
            let entries = store.prefix_iter(StateSpace::RollbackPtr, &prefix);
            let ghost done_before = range_keys(s0, index + 1, hi as int);
            let mut j: usize = 0;
            proof {
                assert(store@.space(StateSpace::RollbackPtr) == s0.rollback_ptr);
                assert forall|k: Seq<u8>|
                    #[trigger] s0.rollback_ptr.contains_key(k) && k.len() >= prefix@.len()
                        && k.subrange(0, prefix@.len() as int) == prefix@ implies exists|i: int|
                        0 <= i < entries@.len() && entries@[i].0@ == k by {
                    assert(store@.space(StateSpace::RollbackPtr).contains_key(k));
                }
                assert(done_before.union(Set::new(|k: Seq<u8>| exists|t: int| 0 <= t < j && entries@[t].0@ == k))
                    =~= done_before);
            }
            while j < entries.len()
                invariant
                    forall|i: int| 0 <= i < write_batch@.len() ==> layout_safe(#[trigger] write_batch@[i]),
                    store.wf(),
                    s0 == store@,
                    rollback_layout(s0),
                    lo <= index <= hi,
                    prefix@ == be_bytes(index),
                    j <= entries@.len(),
                    done_before == range_keys(s0, index + 1, hi as int),
                    forall|i: int|
                        0 <= i < entries@.len() ==> {
                            let k = (#[trigger] entries@[i]).0@;
                            &&& s0.rollback_ptr.contains_key(k)
                            &&& s0.rollback_ptr[k] == entries@[i].1@
                            &&& k.len() >= 8
                            &&& k.subrange(0, 8) == be_bytes(index)
                        },
                    forall|a: int, b: int| 0 <= a < b < entries@.len() ==> entries@[a].0@ != entries@[b].0@,
                    forall|k: Seq<u8>|
                        #[trigger] s0.rollback_ptr.contains_key(k) && k.len() >= prefix@.len()
                            && k.subrange(0, prefix@.len() as int) == prefix@ ==> exists|i: int|
                            0 <= i < entries@.len() && entries@[i].0@ == k,
                    undone(
                        s0,
                        apply_ops(s0, write_batch@),
                        done_before.union(Set::new(|k: Seq<u8>| exists|t: int| 0 <= t < j && entries@[t].0@ == k)),
                    ),
                decreases entries@.len() - j,
            {
                let key = &entries[j].0;
                let value = &entries[j].1;
                let ghost k = key@;
                proof {
                    assert(s0.rollback_ptr.contains_key(k));
                    lemma_ptr_key_parts(k);
                    lemma_be_bytes_of_from_be(k);
                    lemma_from_be_of_be_bytes(index);
                    assert(ptr_index(k) == index) by {
                        assert(k.subrange(0, 8) == be_bytes(index));
                    }
                }
                let resource_id = u64_from_be_bytes_at(key, 8);
                let old_version = u64_from_be_bytes(value.as_slice());
                let ghost before = write_batch@;
                let ghost done_j = done_before.union(
                    Set::new(|x: Seq<u8>| exists|t: int| 0 <= t < j && entries@[t].0@ == x),
                );
                self.apply_rollback_ptr(store, &mut write_batch, index, resource_id, old_version);
                proof {
                    let added = rollback_ptr_ops(s0, index, resource_id, old_version);
                    assert forall|i: int| 0 <= i < added.len() implies layout_safe(#[trigger] added[i]) by {}
                    assert forall|i: int| 0 <= i < write_batch@.len() implies layout_safe(#[trigger] write_batch@[i]) by {
                        if i < before.len() {
                            assert(write_batch@[i] == before[i]);
                        } else {
                            assert(write_batch@[i] == added[i - before.len()]);
                        }
                    }
                    assert(resource_id == from_be(ptr_resource(k)));
                    assert(old_version == from_be(s0.rollback_ptr[k]));
                    assert(!done_j.contains(k)) by {
                        if done_before.contains(k) {
                            assert(ptr_index(k) >= index + 1);
                        }
                        if exists|t: int| 0 <= t < j && entries@[t].0@ == k {
                            let t = choose|t: int| 0 <= t < j && entries@[t].0@ == k;
                            assert(entries@[t].0@ != entries@[j as int].0@);
                        }
                    }
                    assert forall|r: Seq<u8>| #[trigger] done_j.contains(r) implies ptr_index(k) <= ptr_index(r)
                        && r.len() == 16 by {
                        if done_before.contains(r) {
                        } else {
                            let t = choose|t: int| 0 <= t < j && entries@[t].0@ == r;
                            let et = entries@[t];
                            assert(s0.rollback_ptr.contains_key(et.0@));
                            lemma_be_bytes_of_from_be(r);
                            lemma_be_bytes_injective(ptr_index(r), index);
                        }
                    }
                    lemma_undo_step(s0, apply_ops(s0, before), done_j, k);
                    lemma_apply_ops_concat(
                        s0,
                        before,
                        rollback_ptr_ops(s0, index, resource_id, old_version),
                    );
                    let next = done_before.union(
                        Set::new(|x: Seq<u8>| exists|t: int| 0 <= t < j + 1 && entries@[t].0@ == x),
                    );
                    assert(next =~= done_j.insert(k)) by {
                        assert forall|x: Seq<u8>| next.contains(x) implies done_j.insert(k).contains(x) by {
                            if !done_before.contains(x) {
                                let t = choose|t: int| 0 <= t < j + 1 && entries@[t].0@ == x;
                                if t < j {
                                    assert(done_j.contains(x));
                                }
                            }
                        }
                        assert forall|x: Seq<u8>| done_j.insert(k).contains(x) implies next.contains(x) by {
                            if x == k {
                                assert(entries@[j as int].0@ == x);
                            } else if !done_before.contains(x) {
                                let t = choose|t: int| 0 <= t < j && entries@[t].0@ == x;
                                assert(0 <= t < j + 1 && entries@[t].0@ == x);
                            }
                        }
                    }
                }
                j = j + 1;
            }
            proof {
                let all = done_before.union(
                    Set::new(|x: Seq<u8>| exists|t: int| 0 <= t < entries@.len() && entries@[t].0@ == x),
                );
                assert(all =~= range_keys(s0, index as int, hi as int)) by {
                    assert forall|x: Seq<u8>| all.contains(x) implies range_keys(s0, index as int, hi as int).contains(x) by {
                        if !done_before.contains(x) {
                            let t = choose|t: int| 0 <= t < entries@.len() && entries@[t].0@ == x;
                            let et = entries@[t];
                            assert(s0.rollback_ptr.contains_key(et.0@));
                            lemma_be_bytes_of_from_be(x);
                            lemma_from_be_of_be_bytes(index);
                        }
                    }
                    assert forall|x: Seq<u8>| range_keys(s0, index as int, hi as int).contains(x) implies all.contains(x) by {
                        if ptr_index(x) == index {
                            assert(s0.rollback_ptr.contains_key(x));
                            lemma_be_bytes_of_from_be(x);
                            assert(x.len() >= prefix@.len());
                            assert(x.subrange(0, prefix@.len() as int) == prefix@);
                        }
                    }
                }
            }
            if index == lo {
                break;
            }
            index = index - 1;
        }
        write_batch
    }

    /// Adds the writes that undo the rollback pointer of `resource_id` at `batch_index`.
    fn apply_rollback_ptr(
        &self,
        store: &Store,
        write_batch: &mut WriteBatch,
        batch_index: u64,
        resource_id: u64,
        old_version: u64,
    )
        requires
            store.wf(),
            rollback_layout(store@),
        ensures
            final(write_batch)@ == old(write_batch)@ + rollback_ptr_ops(
                store@,
                batch_index,
                resource_id,
                old_version,
            ),
    {
        let id_bytes = u64_to_be_bytes(resource_id);
        let ghost start = write_batch@;
        let ghost drop_data: Seq<WriteOpView> = Seq::empty();
        if let Some(current_version_bytes) = store.get(StateSpace::LatestPtr, &id_bytes) {
            let current_version = u64_from_be_bytes(current_version_bytes.as_slice());
            if current_version > old_version {
                let key = concat_be(current_version, resource_id);
                write_batch.delete(StateSpace::Data, &key);
                proof {
                    drop_data = seq![WriteOpView::Delete(StateSpace::Data, key@)];
                }
            }
        }
        if old_version == 0 {
            write_batch.delete(StateSpace::LatestPtr, &id_bytes);
        } else {
            let value = u64_to_be_bytes(old_version);
            write_batch.put(StateSpace::LatestPtr, &id_bytes, &value);
        }
        let ptr_key = concat_be(batch_index, resource_id);
        write_batch.delete(StateSpace::RollbackPtr, &ptr_key);
        assert(write_batch@ =~= start + rollback_ptr_ops(store@, batch_index, resource_id, old_version));
    }
}

/// A signal that opens once and stays open.
pub struct Latch {
    open: bool,
}

impl View for Latch {
    type V = bool;

    closed spec fn view(&self) -> bool {
        self.open
    }
}

impl Latch {
    /// A closed latch.
    pub fn new() -> (r: Latch)
        ensures
            !r@,
    {
        Latch { open: false }
    }

    /// Opens the latch.
    pub fn open(&mut self)
        ensures
            final(self)@,
    {
        self.open = true;
    }

    pub fn is_open(&self) -> (r: bool)
        ensures
            r == self@,
    {
        self.open
    }
}

} // verus!
