use crossbeam_deque::Worker;
use vprogs::access::{has_distinct_resources, AccessMetadata, AccessType, Transaction};
use vprogs::batch_queue::BatchQueue;
use vprogs::deque::Stolen;
use vprogs::manager::RuntimeManager;
use vprogs::store::Store;
use vprogs::versioned_state::VersionedState;

fn tx(id: usize, accesses: Vec<AccessMetadata>) -> Transaction<usize> {
    Transaction { payload: id, accesses }
}

fn rd(id: u64) -> AccessMetadata {
    AccessMetadata { id, access_type: AccessType::Read }
}

fn wr(id: u64) -> AccessMetadata {
    AccessMetadata { id, access_type: AccessType::Write }
}

/// Executes transaction `t`, appending its payload to every resource it writes.
fn run_tx(rt: &mut RuntimeManager<usize>, t: usize, ok: bool) {
    assert!(rt.is_ready(t));
    let id = rt.tx(t).tx().payload;
    let mut handles = rt.access_handles(t);
    for h in handles.iter_mut() {
        if h.access_metadata().access_type() == AccessType::Write {
            h.data_mut().extend_from_slice(&id.to_be_bytes());
        }
    }
    rt.execute(t, handles, ok);
}

fn take(rt: &mut RuntimeManager<usize>, b: usize) -> Option<usize> {
    let local: Worker<usize> = Worker::new_fifo();
    loop {
        match rt.steal_available_tasks(b, &local) {
            Stolen::Success(t) => return Some(t),
            Stolen::Empty => return None,
            Stolen::Retry => {}
        }
    }
}

fn drain_writes(rt: &mut RuntimeManager<usize>) {
    while rt.next_write_ready() && rt.process_write() {}
}

/// Runs every batch to completion: reads, executions, writes and commits.
fn run_all(rt: &mut RuntimeManager<usize>, committed: &mut Vec<bool>) {
    let mut queue = BatchQueue::new();
    for b in 0..rt.num_batches() {
        queue.receive(b);
    }
    let local: Worker<usize> = Worker::new_fifo();
    loop {
        let mut progress = false;
        while rt.process_read() {
            progress = true;
        }
        loop {
            let next = match local.pop() {
                Some(t) => Some(t),
                None => match queue.steal(rt, &local) {
                    Stolen::Success(t) => Some(t),
                    Stolen::Retry => continue,
                    Stolen::Empty => None,
                },
            };
            match next {
                Some(t) => {
                    run_tx(rt, t, true);
                    progress = true;
                }
                None => break,
            }
        }
        while rt.next_write_ready() && rt.process_write() {
            progress = true;
        }
        committed.resize(rt.num_batches(), false);
        for b in 0..rt.num_batches() {
            if rt.batch(b).was_persisted() && !committed[b] {
                committed[b] = true;
                rt.schedule_commit(b);
                progress = true;
            }
        }
        if !progress {
            break;
        }
    }
}

#[test]
fn test_schedule_links_accesses() {
    let mut rt: RuntimeManager<usize> = RuntimeManager::new(Store::new());
    let b = rt.schedule(vec![tx(0, vec![wr(1), rd(2)]), tx(1, vec![wr(1)])]);
    assert_eq!(b, 0);
    assert_eq!(rt.num_batches(), 1);
    assert_eq!(rt.batch(b).index(), 0);
    assert_eq!(rt.batch(b).txs(), &vec![0, 1]);
    assert_eq!(rt.batch(b).state_diffs().len(), 2);
    assert_eq!(rt.batch(b).num_pending(), 2);
    assert_eq!(rt.tx(0).accessed_resources(), &vec![0, 1]);
    assert_eq!(rt.tx(1).accessed_resources(), &vec![2]);
    assert!(rt.access(0).is_batch_head() && !rt.access(0).is_batch_tail());
    assert!(rt.access(1).is_batch_head() && rt.access(1).is_batch_tail());
    assert!(!rt.access(2).is_batch_head() && rt.access(2).is_batch_tail());
    let d0 = rt.batch(b).state_diffs()[0];
    let d1 = rt.batch(b).state_diffs()[1];
    assert_eq!(rt.state_diff(d0).resource_id(), 1);
    assert_eq!(rt.state_diff(d1).resource_id(), 2);
    assert_eq!(rt.access(2).metadata().id(), 1);
}

#[test]
fn test_batches_numbered_from_longest_chain() {
    let mut rt: RuntimeManager<usize> = RuntimeManager::new(Store::new());
    let b0 = rt.schedule(vec![tx(0, vec![wr(1)])]);
    let b1 = rt.schedule(vec![tx(1, vec![wr(1)])]);
    assert_eq!(rt.batch(b0).index(), 0);
    assert_eq!(rt.batch(b1).index(), 1);
    assert_eq!(rt.longest_chain().last_batch_index(), 2);
    assert!(!rt.was_canceled(b0) && !rt.was_canceled(b1));
}

#[test]
fn test_available_transactions_are_ready() {
    let mut rt: RuntimeManager<usize> = RuntimeManager::new(Store::new());
    let b = rt.schedule(vec![tx(0, vec![wr(1), rd(2)]), tx(1, vec![wr(1)])]);
    assert_eq!(rt.batch(b).num_available(), 0);
    assert!(!rt.is_ready(0) && !rt.is_ready(1));
    assert!(rt.next_read_ready());
    assert!(rt.process_read());
    assert!(!rt.is_ready(0));
    assert!(rt.process_read());
    assert!(!rt.process_read());
    assert!(rt.is_ready(0) && !rt.is_ready(1));
    assert_eq!(rt.batch(b).num_available(), 1);
    let t = take(&mut rt, b).unwrap();
    assert_eq!(t, 0);
    assert!(rt.is_ready(t));
    assert_eq!(take(&mut rt, b), None);
    run_tx(&mut rt, t, true);
    assert!(rt.is_ready(1));
    assert_eq!(rt.batch(b).num_available(), 1);
    assert_eq!(rt.batch(b).num_pending(), 1);
    let t = take(&mut rt, b).unwrap();
    assert_eq!(t, 1);
    run_tx(&mut rt, t, true);
    assert_eq!(rt.batch(b).num_pending(), 0);
    assert!(rt.batch(b).was_processed());
    assert!(rt.batch(b).is_depleted());
}

#[test]
fn test_access_handles_start_from_read_state() {
    let mut rt: RuntimeManager<usize> = RuntimeManager::new(Store::new());
    rt.schedule(vec![tx(7, vec![wr(1), rd(2)])]);
    while rt.process_read() {}
    let mut handles = rt.access_handles(0);
    assert_eq!(handles.len(), 2);
    assert!(handles[0].is_new() && handles[1].is_new());
    assert_eq!(handles[0].version(), 0);
    assert!(handles[0].data().is_empty());
    handles[0].data_mut().push(3);
    assert_eq!(handles[0].version(), 1);
    assert!(!handles[0].is_new());
    assert_eq!(handles[0].data(), &vec![3]);
    assert_eq!(handles[1].access_metadata().id(), 2);
    handles[1].state_mut().balance = 5;
    assert_eq!(handles[1].version(), 1);
    assert_eq!(handles[1].state().balance, 5);
    assert_eq!(handles[1].state().owner, 0);
}

#[test]
fn test_failed_transaction_passes_read_state_on() {
    let mut rt: RuntimeManager<usize> = RuntimeManager::new(Store::new());
    let mut committed = Vec::new();
    rt.schedule(vec![tx(0, vec![wr(1)])]);
    run_all(&mut rt, &mut committed);
    rt.schedule(vec![tx(1, vec![wr(1)]), tx(2, vec![wr(1)])]);
    while rt.process_read() {}
    let t = take(&mut rt, 1).unwrap();
    assert_eq!(t, 1);
    run_tx(&mut rt, t, false);
    let t = take(&mut rt, 1).unwrap();
    let handles = rt.access_handles(t);
    assert_eq!(handles[0].version(), 1);
    assert_eq!(handles[0].data(), &0usize.to_be_bytes().to_vec());
    run_tx(&mut rt, t, true);
    run_all(&mut rt, &mut committed);
    let state = VersionedState::from_latest_data(rt.storage_manager().store(), 1);
    assert_eq!(state.version(), 2);
    let mut expected = 0usize.to_be_bytes().to_vec();
    expected.extend_from_slice(&2usize.to_be_bytes());
    assert_eq!(state.data(), &expected);
}

#[test]
fn test_rollback_to_restores_and_cancels() {
    let mut rt: RuntimeManager<usize> = RuntimeManager::new(Store::new());
    let mut committed = Vec::new();
    rt.schedule(vec![tx(0, vec![wr(1)])]);
    run_all(&mut rt, &mut committed);
    rt.schedule(vec![tx(1, vec![wr(1), wr(2)])]);
    run_all(&mut rt, &mut committed);
    let state = VersionedState::from_latest_data(rt.storage_manager().store(), 1);
    assert_eq!(state.version(), 2);
    assert!(!rt.rollback_pending());
    rt.rollback_to(0);
    assert!(rt.rollback_pending());
    assert!(!rt.was_canceled(0));
    assert!(rt.was_canceled(1));
    assert_eq!(rt.longest_chain().last_batch_index(), 0);
    drain_writes(&mut rt);
    assert!(!rt.rollback_pending());
    let store = rt.storage_manager().store();
    let state = VersionedState::from_latest_data(store, 1);
    assert_eq!(state.version(), 1);
    assert_eq!(state.data(), &0usize.to_be_bytes().to_vec());
    let state = VersionedState::from_latest_data(store, 2);
    assert_eq!(state.version(), 0);
    assert!(state.data().is_empty());
}

#[test]
fn test_rollback_to_when_not_ahead_does_nothing() {
    let mut rt: RuntimeManager<usize> = RuntimeManager::new(Store::new());
    rt.schedule(vec![tx(0, vec![wr(1)])]);
    rt.rollback_to(0);
    assert!(!rt.rollback_pending());
    assert!(!rt.was_canceled(0));
    assert_eq!(rt.longest_chain().last_batch_index(), 1);
    rt.rollback_to(5);
    assert!(!rt.rollback_pending());
    let mut empty: RuntimeManager<usize> = RuntimeManager::new(Store::new());
    empty.rollback_to(0);
    assert!(!empty.rollback_pending());
    assert_eq!(empty.longest_chain().last_batch_index(), 0);
}

#[test]
fn test_canceled_batch_is_not_committed() {
    let mut rt: RuntimeManager<usize> = RuntimeManager::new(Store::new());
    let mut committed = Vec::new();
    rt.schedule(vec![tx(0, vec![wr(1)])]);
    run_all(&mut rt, &mut committed);
    let b = rt.schedule(vec![tx(1, vec![wr(1)])]);
    while rt.process_read() {}
    let t = take(&mut rt, b).unwrap();
    run_tx(&mut rt, t, true);
    rt.rollback_to(0);
    assert!(rt.was_canceled(b));
    drain_writes(&mut rt);
    rt.schedule_commit(b);
    drain_writes(&mut rt);
    assert!(!rt.batch(b).was_committed());
    assert!(rt.batch(0).was_committed());
}

#[test]
fn test_distinct_resources_check() {
    assert!(has_distinct_resources(&[wr(1), rd(2), wr(3)]));
    assert!(!has_distinct_resources(&[wr(1), rd(2), rd(1)]));
    assert!(has_distinct_resources(&[]));
}

#[test]
fn test_transactions_belong_to_their_batch() {
    let mut rt: RuntimeManager<usize> = RuntimeManager::new(Store::new());
    rt.schedule(vec![tx(0, vec![wr(1)]), tx(1, vec![rd(1)])]);
    rt.schedule(vec![tx(2, vec![wr(1)])]);
    assert!(rt.tx(0).belongs_to_batch(0) && rt.tx(1).belongs_to_batch(0));
    assert!(!rt.tx(2).belongs_to_batch(0) && rt.tx(2).belongs_to_batch(1));
    assert_eq!(rt.tx(2).tx().payload, 2);
}

#[test]
fn test_rollback_keeps_data_a_batch_only_read() {
    let mut rt: RuntimeManager<usize> = RuntimeManager::new(Store::new());
    let mut committed = Vec::new();
    rt.schedule(vec![tx(0, vec![wr(1)])]);
    run_all(&mut rt, &mut committed);
    rt.schedule(vec![tx(1, vec![rd(1)])]);
    run_all(&mut rt, &mut committed);
    assert!(rt.batch(1).was_committed());
    rt.rollback_to(0);
    assert!(rt.was_canceled(1));
    drain_writes(&mut rt);
    assert!(!rt.rollback_pending());
    let store = rt.storage_manager().store();
    assert!(vprogs::versioned_state::latest_data_available(store, 1));
    let state = VersionedState::from_latest_data(store, 1);
    assert_eq!(state.version(), 1);
    assert_eq!(state.data(), &0usize.to_be_bytes().to_vec());
}

#[test]
fn test_batch_persisted_when_writes_finish_first() {
    let mut rt: RuntimeManager<usize> = RuntimeManager::new(Store::new());
    let b = rt.schedule(vec![tx(0, vec![wr(1)]), tx(1, vec![rd(3)])]);
    while rt.process_read() {}
    drain_writes(&mut rt);
    let t0 = take(&mut rt, b).unwrap();
    let t1 = take(&mut rt, b).unwrap();
    assert_eq!((t0, t1), (0, 1));
    run_tx(&mut rt, t0, true);
    drain_writes(&mut rt);
    assert!(!rt.batch(b).was_persisted());
    run_tx(&mut rt, t1, true);
    assert!(rt.batch(b).was_processed());
    assert!(rt.batch(b).was_persisted());
    rt.schedule_commit(b);
    drain_writes(&mut rt);
    assert!(rt.batch(b).was_committed());
}

#[test]
fn test_numbering_restarts_at_rollback_target() {
    let mut rt: RuntimeManager<usize> = RuntimeManager::new(Store::new());
    let b0 = rt.schedule(vec![tx(0, vec![wr(1)])]);
    let b1 = rt.schedule(vec![tx(1, vec![wr(1)])]);
    let b2 = rt.schedule(vec![tx(2, vec![wr(1)])]);
    assert_eq!((rt.batch(b0).index(), rt.batch(b1).index(), rt.batch(b2).index()), (0, 1, 2));
    rt.rollback_to(1);
    assert!(!rt.was_canceled(b1) && rt.was_canceled(b2));
    let b3 = rt.schedule(vec![tx(3, vec![wr(2)])]);
    assert_eq!(rt.batch(b3).index(), 1);
    assert!(!rt.was_canceled(b3));
}

#[test]
fn test_malformed_pointer_only_matters_for_a_rollback() {
    let mut store = Store::new();
    let mut wb = store.write_batch();
    wb.put(vprogs::store::StateSpace::RollbackPtr, &vec![1, 2, 3], &vec![0; 8]);
    store.commit(wb);
    let mut rt: RuntimeManager<usize> = RuntimeManager::new(store);
    rt.schedule(vec![tx(0, vec![wr(1)])]);
    rt.schedule(vec![tx(1, vec![wr(1)])]);
    assert!(rt.next_write_ready());
    rt.rollback_to(0);
    assert!(rt.rollback_pending());
    assert!(!rt.next_write_ready());
}

#[test]
fn test_handles_fit_only_in_their_order() {
    let mut rt: RuntimeManager<usize> = RuntimeManager::new(Store::new());
    rt.schedule(vec![tx(0, vec![wr(1), rd(2)])]);
    while rt.process_read() {}
    assert!(rt.is_ready(0));
    let mut handles = rt.access_handles(0);
    assert!(rt.handles_fit(0, &handles));
    handles.swap(0, 1);
    assert!(!rt.handles_fit(0, &handles));
    handles.pop();
    assert!(!rt.handles_fit(0, &handles));
}
