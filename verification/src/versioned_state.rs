//! A resource's data at one version, and how versions are laid out in the store.

use vstd::prelude::*;

use crate::codec::{be_bytes, concat_be, from_be, pair_key, u64_from_be_bytes, u64_to_be_bytes};
use crate::state::{borsh_from_slice, borsh_state, decodable, decoded, lemma_decode_encoding, State};
use crate::store::{apply_op, apply_ops, StateSpace, Store, StoreView, WriteBatch, WriteOpView};

verus! {

/// The state of a resource at one version: its owner, data and balance.
pub struct VersionedStateView {
    pub resource_id: u64,
    pub version: u64,
    pub owner: u64,
    pub data: Seq<u8>,
    pub balance: u64,
}

/// The state of a resource at one version; version 0 is a resource that never existed.
pub struct VersionedState {
    resource_id: u64,
    version: u64,
    state: State,
}

impl View for VersionedState {
    type V = VersionedStateView;

    closed spec fn view(&self) -> VersionedStateView {
        VersionedStateView {
            resource_id: self.resource_id,
            version: self.version,
            owner: self.state.owner,
            data: self.state.data@,
            balance: self.state.balance,
        }
    }
}

/// The state of a resource that was never written.
pub open spec fn empty_state(id: u64) -> VersionedStateView {
    VersionedStateView { resource_id: id, version: 0, owner: 0, data: Seq::empty(), balance: 0 }
}

/// The version that the latest pointer of `id` names, if there is one.
pub open spec fn latest_version(s: StoreView, id: u64) -> Option<u64> {
    if s.latest_ptr.contains_key(be_bytes(id)) {
        Some(from_be(s.latest_ptr[be_bytes(id)]))
    } else {
        None
    }
}

/// The data key that the latest pointer of `id` names: the pointer's bytes, then the id's.
pub open spec fn latest_data_key(s: StoreView, id: u64) -> Seq<u8> {
    s.latest_ptr[be_bytes(id)] + be_bytes(id)
}

/// The latest pointer of `id`, if present, holds at least a version and names stored data
/// that encodes a state.
pub open spec fn latest_readable(s: StoreView, id: u64) -> bool {
    s.latest_ptr.contains_key(be_bytes(id)) ==> {
        &&& s.latest_ptr[be_bytes(id)].len() >= 8
        &&& s.data.contains_key(latest_data_key(s, id))
        &&& decodable(s.data[latest_data_key(s, id)])
    }
}

/// The state of `id` at version `v` that `bytes` encodes.
pub open spec fn decoded_state(id: u64, v: u64, bytes: Seq<u8>) -> VersionedStateView {
    let f = decoded(bytes);
    VersionedStateView { resource_id: id, version: v, owner: f.0, data: f.1, balance: f.2 }
}

/// The state of `id` that the store names as latest.
pub open spec fn latest_state(s: StoreView, id: u64) -> VersionedStateView {
    match latest_version(s, id) {
        None => empty_state(id),
        Some(v) => decoded_state(id, v, s.data[latest_data_key(s, id)]),
    }
}

/// The write that stores the encoded state `st`.
pub open spec fn data_write(st: VersionedStateView) -> WriteOpView {
    WriteOpView::Put(StateSpace::Data, pair_key(st.version, st.resource_id), borsh_state(st.owner, st.data, st.balance))
}

/// The write that makes `st` the latest version of its resource.
pub open spec fn latest_ptr_write(st: VersionedStateView) -> WriteOpView {
    WriteOpView::Put(StateSpace::LatestPtr, be_bytes(st.resource_id), be_bytes(st.version))
}

/// The write that records `st` as the version its resource had before batch `batch_index`.
pub open spec fn rollback_ptr_write(st: VersionedStateView, batch_index: u64) -> WriteOpView {
    WriteOpView::Put(
        StateSpace::RollbackPtr,
        pair_key(batch_index, st.resource_id),
        be_bytes(st.version),
    )
}

/// Law: after the data of a state and then its latest pointer are written, reading the
/// latest data of its resource gives that state back.
pub proof fn lemma_read_after_write(s: StoreView, st: VersionedStateView)
    requires
        st.data.len() <= u32::MAX,
    ensures
        ({
            let s2 = apply_ops(s, seq![data_write(st), latest_ptr_write(st)]);
            latest_readable(s2, st.resource_id) && latest_state(s2, st.resource_id) == st
        }),
{
    let ops = seq![data_write(st), latest_ptr_write(st)];
    assert(ops.drop_last() =~= seq![data_write(st)]);
    assert(ops.drop_last().drop_last() =~= Seq::<WriteOpView>::empty());
    crate::codec::lemma_from_be_of_be_bytes(st.version);
    let s1 = apply_op(s, data_write(st));
    assert(apply_ops(s, ops.drop_last().drop_last()) == s);
    assert(apply_ops(s, ops.drop_last()) == s1);
    let s2 = apply_op(s1, latest_ptr_write(st));
    assert(apply_ops(s, ops) == s2);
    assert(s2.latest_ptr == s.latest_ptr.insert(be_bytes(st.resource_id), be_bytes(st.version)));
    assert(s2.data == s.data.insert(pair_key(st.version, st.resource_id), borsh_state(st.owner, st.data, st.balance)));
    lemma_decode_encoding(st.owner, st.data, st.balance);
}

/// The latest pointer of `id`, and the data key it names, if there is one.
fn latest_ptr_get(store: &Store, id: u64) -> (r: Option<(u64, Vec<u8>)>)
    requires
        store.wf(),
    ensures
        match r {
            Some((v, k)) => {
                &&& store@.latest_ptr.contains_key(be_bytes(id))
                &&& store@.latest_ptr[be_bytes(id)].len() >= 8
                &&& v == from_be(store@.latest_ptr[be_bytes(id)])
                &&& k@ == latest_data_key(store@, id)
            },
            None => !store@.latest_ptr.contains_key(be_bytes(id)) || store@.latest_ptr[be_bytes(id)].len() < 8,
        },
{
    let key = u64_to_be_bytes(id);
    match store.get(StateSpace::LatestPtr, &key) {
        None => None,
        Some(mut ptr) => {
            if ptr.len() < 8 {
                return None;
            }
            let version = u64_from_be_bytes(ptr.as_slice());
            let mut id_bytes = u64_to_be_bytes(id);
            ptr.append(&mut id_bytes);
            Some((version, ptr))
        },
    }
}

/// Whether the latest state of `id` can be read from `store`.
pub fn latest_data_available(store: &Store, id: u64) -> (r: bool)
    requires
        store.wf(),
    ensures
        r == latest_readable(store@, id),
{
    match latest_ptr_get(store, id) {
        None => {
            let key = u64_to_be_bytes(id);
            store.get(StateSpace::LatestPtr, &key).is_none()
        },
        Some((_version, data_key)) => match store.get(StateSpace::Data, &data_key) {
            None => false,
            Some(data) => {
                let fields = borsh_from_slice(data.as_slice());
                proof {
                    if decodable(data@) {
                        let (o, d, b) = decoded(data@);
                        assert(crate::state::encodes(data@, o, d, b));
                    }
                }
                fields.is_some()
            },
        },
    }
}

impl VersionedState {
    pub fn empty(id: u64) -> (r: VersionedState)
        ensures
            r@ == empty_state(id),
    {
        VersionedState { resource_id: id, version: 0, state: State { owner: 0, data: Vec::new(), balance: 0 } }
    }

    /// Reads the latest committed state of `id`, or the empty state if there is none.
    pub fn from_latest_data(store: &Store, id: u64) -> (r: VersionedState)
        requires
            store.wf(),
            latest_readable(store@, id),
        ensures
            r@ == latest_state(store@, id),
    {
        match latest_ptr_get(store, id) {
            None => VersionedState::empty(id),
            Some((version, data_key)) => match store.get(StateSpace::Data, &data_key) {
                Some(data) => {
                    proof {
                        let (o, d, b) = decoded(data@);
                        assert(crate::state::encodes(data@, o, d, b));
                    }
                    match borsh_from_slice(data.as_slice()) {
                        Some(state) => VersionedState { resource_id: id, version, state },
                        None => {
                            assert(false);
                            VersionedState::empty(id)
                        },
                    }
                },
                None => {
                    assert(false);
                    VersionedState::empty(id)
                },
            },
        }
    }

    pub fn resource_id(&self) -> (r: u64)
        ensures
            r == self@.resource_id,
    {
        self.resource_id
    }

    pub fn version(&self) -> (r: u64)
        ensures
            r == self@.version,
    {
        self.version
    }

    pub fn state(&self) -> (r: &State)
        ensures
            r.owner == self@.owner,
            r.data@ == self@.data,
            r.balance == self@.balance,
    {
        &self.state
    }

    /// Mutable access to the state; every call starts a new version.
    pub fn state_mut(&mut self) -> (r: &mut State)
        requires
            old(self)@.version < u64::MAX,
        ensures
            r.owner == old(self)@.owner,
            r.data@ == old(self)@.data,
            r.balance == old(self)@.balance,
            final(self)@.version == old(self)@.version + 1,
            final(self)@.resource_id == old(self)@.resource_id,
            final(self)@.owner == final(r).owner,
            final(self)@.data == final(r).data@,
            final(self)@.balance == final(r).balance,
    {
        self.version = self.version + 1;
        &mut self.state
    }

    pub fn data(&self) -> (r: &Vec<u8>)
        ensures
            r@ == self@.data,
    {
        &self.state.data
    }

    /// Mutable access to the data; every call starts a new version.
    pub fn data_mut(&mut self) -> (r: &mut Vec<u8>)
        requires
            old(self)@.version < u64::MAX,
        ensures
            r@ == old(self)@.data,
            final(self)@.version == old(self)@.version + 1,
            final(self)@.resource_id == old(self)@.resource_id,
            final(self)@.owner == old(self)@.owner,
            final(self)@.balance == old(self)@.balance,
            final(self)@.data == final(r)@,
    {
        self.version = self.version + 1;
        &mut self.state.data
    }

    /// An equal copy.
    pub fn duplicate(&self) -> (r: VersionedState)
        ensures
            r@ == self@,
    {
        VersionedState {
            resource_id: self.resource_id,
            version: self.version,
            state: self.state.duplicate(),
        }
    }

    /// Stores the Borsh encoding of the state under `version || resource_id`.
    pub fn write_data(&self, store: &mut WriteBatch)
        requires
            self@.data.len() <= u32::MAX,
        ensures
            final(store)@ == old(store)@.push(data_write(self@)),
    {
        let bytes = self.state.to_bytes();
        VersionedState::put(store, self.version, self.resource_id, &bytes);
    }

    pub fn write_latest_ptr(&self, store: &mut WriteBatch)
        ensures
            final(store)@ == old(store)@.push(latest_ptr_write(self@)),
    {
        let key = u64_to_be_bytes(self.resource_id);
        let value = u64_to_be_bytes(self.version);
        store.put(StateSpace::LatestPtr, &key, &value);
    }

    pub fn write_rollback_ptr(&self, store: &mut WriteBatch, batch_index: u64)
        ensures
            final(store)@ == old(store)@.push(rollback_ptr_write(self@, batch_index)),
    {
        let key = concat_be(batch_index, self.resource_id);
        let value = u64_to_be_bytes(self.version);
        store.put(StateSpace::RollbackPtr, &key, &value);
    }

    /// The data of `resource_id` at `version`; key layout `version || resource_id`.
    pub fn get(store: &Store, version: u64, resource_id: u64) -> (r: Option<Vec<u8>>)
        requires
            store.wf(),
        ensures
            match r {
                Some(d) => store@.data.contains_key(pair_key(version, resource_id)) && d@
                    == store@.data[pair_key(version, resource_id)],
                None => !store@.data.contains_key(pair_key(version, resource_id)),
            },
    {
        let key = concat_be(version, resource_id);
        store.get(StateSpace::Data, &key)
    }

    /// Stores the data of `resource_id` at `version`.
    pub fn put(store: &mut WriteBatch, version: u64, resource_id: u64, data: &Vec<u8>)
        ensures
            final(store)@ == old(store)@.push(
                WriteOpView::Put(StateSpace::Data, pair_key(version, resource_id), data@),
            ),
    {
        let key = concat_be(version, resource_id);
        store.put(StateSpace::Data, &key, data);
    }

    /// Deletes the data of `resource_id` at `version`.
    pub fn delete(store: &mut WriteBatch, version: u64, resource_id: u64)
        ensures
            final(store)@ == old(store)@.push(
                WriteOpView::Delete(StateSpace::Data, pair_key(version, resource_id)),
            ),
    {
        let key = concat_be(version, resource_id);
        store.delete(StateSpace::Data, &key);
    }
}

} // verus!
