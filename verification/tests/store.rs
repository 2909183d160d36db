use vprogs::store::{bytes_eq, copy_bytes, StateSpace, Store};

#[test]
fn test_store_put_get_delete() {
    let mut store = Store::new();
    let key = vec![1u8, 2, 3];
    let value = vec![9u8, 8];
    assert_eq!(store.get(StateSpace::Data, &key), None);
    let mut wb = store.write_batch();
    wb.put(StateSpace::Data, &key, &value);
    assert_eq!(wb.len(), 1);
    store.commit(wb);
    assert_eq!(store.get(StateSpace::Data, &key), Some(value.clone()));
    assert_eq!(store.get(StateSpace::LatestPtr, &key), None);
    assert_eq!(store.get(StateSpace::RollbackPtr, &key), None);
    let mut wb = store.write_batch();
    wb.delete(StateSpace::Data, &key);
    store.commit(wb);
    assert_eq!(store.get(StateSpace::Data, &key), None);
}

#[test]
fn test_write_batch_applies_in_order() {
    let mut store = Store::new();
    let k1 = vec![1u8];
    let k2 = vec![2u8];
    let mut wb = store.write_batch();
    wb.put(StateSpace::LatestPtr, &k1, &vec![1]);
    wb.put(StateSpace::LatestPtr, &k1, &vec![2]);
    wb.put(StateSpace::LatestPtr, &k2, &vec![3]);
    wb.delete(StateSpace::LatestPtr, &k2);
    assert_eq!(wb.len(), 4);
    let before = store.get(StateSpace::LatestPtr, &k1);
    assert_eq!(before, None);
    store.commit(wb);
    assert_eq!(store.get(StateSpace::LatestPtr, &k1), Some(vec![2]));
    assert_eq!(store.get(StateSpace::LatestPtr, &k2), None);
}

#[test]
fn test_prefix_iter_finds_prefixed_keys() {
    let mut store = Store::new();
    let mut wb = store.write_batch();
    wb.put(StateSpace::RollbackPtr, &vec![1, 0], &vec![10]);
    wb.put(StateSpace::RollbackPtr, &vec![1, 1], &vec![11]);
    wb.put(StateSpace::RollbackPtr, &vec![2, 0], &vec![20]);
    wb.put(StateSpace::Data, &vec![1, 2], &vec![12]);
    store.commit(wb);
    let mut found = store.prefix_iter(StateSpace::RollbackPtr, &vec![1]);
    found.sort();
    assert_eq!(found, vec![(vec![1, 0], vec![10]), (vec![1, 1], vec![11])]);
    assert_eq!(store.prefix_iter(StateSpace::RollbackPtr, &vec![3]), vec![]);
    assert_eq!(store.prefix_iter(StateSpace::RollbackPtr, &vec![]).len(), 3);
}

#[test]
fn test_bytes_helpers() {
    assert!(bytes_eq(&vec![1, 2], &vec![1, 2]));
    assert!(!bytes_eq(&vec![1, 2], &vec![1, 3]));
    assert!(!bytes_eq(&vec![1], &vec![1, 2]));
    assert_eq!(copy_bytes(&vec![4, 5, 6]), vec![4, 5, 6]);
}
