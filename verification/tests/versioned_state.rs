use vprogs::codec::{concat_be, u64_to_be_bytes};
use vprogs::state::State;
use vprogs::store::{StateSpace, Store};
use vprogs::versioned_state::{latest_data_available, VersionedState};

#[test]
fn test_read_after_write() {
    let mut store = Store::new();
    let mut state = VersionedState::empty(7);
    assert_eq!(state.version(), 0);
    state.data_mut().extend_from_slice(&[1, 2, 3]);
    assert_eq!(state.version(), 1);
    assert_eq!(state.resource_id(), 7);
    let mut wb = store.write_batch();
    state.write_data(&mut wb);
    state.write_latest_ptr(&mut wb);
    store.commit(wb);
    assert!(latest_data_available(&store, 7));
    let read = VersionedState::from_latest_data(&store, 7);
    assert_eq!(read.version(), 1);
    assert_eq!(read.data(), &vec![1, 2, 3]);
    assert_eq!(read.resource_id(), 7);
}

#[test]
fn test_never_written_is_empty() {
    let store = Store::new();
    assert!(latest_data_available(&store, 42));
    let read = VersionedState::from_latest_data(&store, 42);
    assert_eq!(read.version(), 0);
    assert!(read.data().is_empty());
}

#[test]
fn test_data_mut_starts_new_version_each_call() {
    let mut state = VersionedState::empty(1);
    state.data_mut().push(1);
    state.data_mut().push(2);
    assert_eq!(state.version(), 2);
    assert_eq!(state.data(), &vec![1, 2]);
    let copy = state.duplicate();
    assert_eq!(copy.version(), 2);
    assert_eq!(copy.data(), &vec![1, 2]);
}

#[test]
fn test_versioned_keys() {
    let mut store = Store::new();
    let mut wb = store.write_batch();
    VersionedState::put(&mut wb, 3, 9, &vec![5]);
    let mut state = VersionedState::empty(9);
    state.data_mut().push(1);
    state.write_rollback_ptr(&mut wb, 4);
    store.commit(wb);
    assert_eq!(store.get(StateSpace::Data, &concat_be(3, 9)), Some(vec![5]));
    assert_eq!(VersionedState::get(&store, 3, 9), Some(vec![5]));
    assert_eq!(store.get(StateSpace::RollbackPtr, &concat_be(4, 9)), Some(u64_to_be_bytes(1)));
    let mut wb = store.write_batch();
    VersionedState::delete(&mut wb, 3, 9);
    store.commit(wb);
    assert_eq!(VersionedState::get(&store, 3, 9), None);
}

#[test]
fn test_latest_ptr_without_data_is_unavailable() {
    let mut store = Store::new();
    let mut wb = store.write_batch();
    wb.put(StateSpace::LatestPtr, &u64_to_be_bytes(5), &u64_to_be_bytes(2));
    store.commit(wb);
    assert!(!latest_data_available(&store, 5));
}

#[test]
fn test_state_is_stored_borsh_encoded() {
    let mut store = Store::new();
    let mut state = VersionedState::empty(3);
    {
        let s = state.state_mut();
        s.owner = 9;
        s.data.push(4);
        s.balance = 100;
    }
    assert_eq!(state.version(), 1);
    let mut wb = store.write_batch();
    state.write_data(&mut wb);
    state.write_latest_ptr(&mut wb);
    store.commit(wb);
    let expected = State { owner: 9, data: vec![4], balance: 100 }.to_bytes();
    assert_eq!(store.get(StateSpace::Data, &concat_be(1, 3)), Some(expected));
    let read = VersionedState::from_latest_data(&store, 3);
    assert_eq!(read.state().owner, 9);
    assert_eq!(read.state().data, vec![4]);
    assert_eq!(read.state().balance, 100);
    assert_eq!(read.version(), 1);
}

#[test]
fn test_undecodable_data_is_unavailable() {
    let mut store = Store::new();
    let mut wb = store.write_batch();
    VersionedState::put(&mut wb, 1, 5, &vec![1, 2, 3]);
    wb.put(StateSpace::LatestPtr, &u64_to_be_bytes(5), &u64_to_be_bytes(1));
    store.commit(wb);
    assert!(!latest_data_available(&store, 5));
}

#[test]
fn test_long_latest_ptr_names_data_by_its_whole_value() {
    let mut store = Store::new();
    let mut ptr = u64_to_be_bytes(2);
    ptr.extend_from_slice(&[7, 7]);
    let mut key = ptr.clone();
    key.extend_from_slice(&u64_to_be_bytes(5));
    let encoded = State { owner: 4, data: vec![8], balance: 6 }.to_bytes();
    let mut wb = store.write_batch();
    wb.put(StateSpace::LatestPtr, &u64_to_be_bytes(5), &ptr);
    wb.put(StateSpace::Data, &key, &encoded);
    store.commit(wb);
    assert!(latest_data_available(&store, 5));
    let read = VersionedState::from_latest_data(&store, 5);
    assert_eq!(read.version(), 2);
    assert_eq!(read.state().owner, 4);
    assert_eq!(read.state().data, vec![8]);
    assert_eq!(read.state().balance, 6);
}

#[test]
fn test_short_latest_ptr_is_unavailable() {
    let mut store = Store::new();
    let mut wb = store.write_batch();
    wb.put(StateSpace::LatestPtr, &u64_to_be_bytes(5), &vec![0, 0, 0, 1]);
    store.commit(wb);
    assert!(!latest_data_available(&store, 5));
}
