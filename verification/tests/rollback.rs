use vprogs::codec::{concat_be, u64_to_be_bytes};
use vprogs::rollback::{has_rollback_layout, Latch, Rollback};
use vprogs::state::State;
use vprogs::store::{StateSpace, Store};
use vprogs::versioned_state::VersionedState;

/// Stores what committing `version` of resource `id` in batch `batch` leaves behind.
fn commit_version(store: &mut Store, batch: u64, id: u64, version: u64, data: Vec<u8>) {
    let mut wb = store.write_batch();
    VersionedState::put(&mut wb, version, id, &State { owner: 0, data, balance: 0 }.to_bytes());
    wb.put(StateSpace::RollbackPtr, &concat_be(batch, id), &u64_to_be_bytes(version - 1));
    wb.put(StateSpace::LatestPtr, &u64_to_be_bytes(id), &u64_to_be_bytes(version));
    store.commit(wb);
}

#[test]
fn test_rollback_of_first_version_removes_resource() {
    let mut store = Store::new();
    commit_version(&mut store, 0, 1, 1, vec![7]);
    let rollback = Rollback::new(0, 0);
    let wb = store.write_batch();
    let rest = rollback.execute(&mut store, wb);
    assert_eq!(rest.len(), 0);
    assert_eq!(store.get(StateSpace::LatestPtr, &u64_to_be_bytes(1)), None);
    assert_eq!(store.get(StateSpace::Data, &concat_be(1, 1)), None);
    assert_eq!(store.get(StateSpace::RollbackPtr, &concat_be(0, 1)), None);
    let state = VersionedState::from_latest_data(&store, 1);
    assert_eq!(state.version(), 0);
    assert!(state.data().is_empty());
}

#[test]
fn test_rollback_restores_previous_version() {
    let mut store = Store::new();
    commit_version(&mut store, 0, 1, 1, vec![1]);
    commit_version(&mut store, 1, 1, 2, vec![1, 2]);
    commit_version(&mut store, 1, 3, 1, vec![3]);
    let rollback = Rollback::new(1, 1);
    let wb = store.write_batch();
    rollback.execute(&mut store, wb);
    let state = VersionedState::from_latest_data(&store, 1);
    assert_eq!(state.version(), 1);
    assert_eq!(state.data(), &vec![1]);
    assert_eq!(store.get(StateSpace::Data, &concat_be(2, 1)), None);
    assert_eq!(store.get(StateSpace::RollbackPtr, &concat_be(0, 1)), Some(u64_to_be_bytes(0)));
    assert_eq!(store.get(StateSpace::LatestPtr, &u64_to_be_bytes(3)), None);
}

#[test]
fn test_rollback_range_newest_first() {
    let mut store = Store::new();
    commit_version(&mut store, 0, 1, 1, vec![1]);
    commit_version(&mut store, 1, 1, 2, vec![1, 2]);
    commit_version(&mut store, 2, 1, 3, vec![1, 2, 3]);
    let rollback = Rollback::new(1, 2);
    let wb = store.write_batch();
    rollback.execute(&mut store, wb);
    let state = VersionedState::from_latest_data(&store, 1);
    assert_eq!(state.version(), 1);
    assert_eq!(state.data(), &vec![1]);
    assert!(store.prefix_iter(StateSpace::RollbackPtr, &u64_to_be_bytes(1)).is_empty());
    assert!(store.prefix_iter(StateSpace::RollbackPtr, &u64_to_be_bytes(2)).is_empty());
}

#[test]
fn test_rollback_commits_pending_writes_first() {
    let mut store = Store::new();
    let mut wb = store.write_batch();
    wb.put(StateSpace::Data, &vec![9], &vec![9]);
    let rollback = Rollback::new(5, 4);
    rollback.execute(&mut store, wb);
    assert_eq!(store.get(StateSpace::Data, &vec![9]), Some(vec![9]));
}

#[test]
fn test_rollback_done_signal() {
    let mut rollback = Rollback::new(1, 2);
    assert!(!rollback.was_done());
    rollback.done();
    assert!(rollback.was_done());
    let mut latch = Latch::new();
    assert!(!latch.is_open());
    latch.open();
    assert!(latch.is_open());
}

#[test]
fn test_rollback_layout_check() {
    let mut store = Store::new();
    assert!(has_rollback_layout(&store));
    commit_version(&mut store, 0, 1, 1, vec![7]);
    assert!(has_rollback_layout(&store));
    let mut wb = store.write_batch();
    wb.put(StateSpace::RollbackPtr, &vec![1, 2, 3], &u64_to_be_bytes(0));
    store.commit(wb);
    assert!(!has_rollback_layout(&store));
    let mut store = Store::new();
    let mut wb = store.write_batch();
    wb.put(StateSpace::LatestPtr, &u64_to_be_bytes(1), &vec![1]);
    store.commit(wb);
    assert!(!has_rollback_layout(&store));
}

#[test]
fn test_rollback_of_read_only_batch_keeps_data() {
    let mut store = Store::new();
    commit_version(&mut store, 0, 1, 1, vec![7]);
    let mut wb = store.write_batch();
    wb.put(StateSpace::RollbackPtr, &concat_be(5, 1), &u64_to_be_bytes(1));
    store.commit(wb);
    let rollback = Rollback::new(5, 5);
    let wb = store.write_batch();
    rollback.execute(&mut store, wb);
    let state = VersionedState::from_latest_data(&store, 1);
    assert_eq!(state.version(), 1);
    assert_eq!(state.data(), &vec![7]);
    assert_eq!(store.get(StateSpace::RollbackPtr, &concat_be(5, 1)), None);
}

#[test]
fn test_rollback_of_uncommitted_write_keeps_latest() {
    let mut store = Store::new();
    commit_version(&mut store, 0, 1, 1, vec![7]);
    let mut wb = store.write_batch();
    VersionedState::put(&mut wb, 2, 1, &State { owner: 0, data: vec![7, 8], balance: 0 }.to_bytes());
    wb.put(StateSpace::RollbackPtr, &concat_be(5, 1), &u64_to_be_bytes(1));
    wb.put(StateSpace::RollbackPtr, &concat_be(6, 1), &u64_to_be_bytes(2));
    store.commit(wb);
    let rollback = Rollback::new(5, 6);
    let wb = store.write_batch();
    rollback.execute(&mut store, wb);
    let state = VersionedState::from_latest_data(&store, 1);
    assert_eq!(state.version(), 1);
    assert_eq!(state.data(), &vec![7]);
}
