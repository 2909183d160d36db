use crossbeam_deque::Worker;
use vprogs::access::{AccessMetadata, AccessType, Transaction};
use vprogs::batch_queue::BatchQueue;
use vprogs::deque::Stolen;
use vprogs::manager::RuntimeManager;
use vprogs::store::Store;
use vprogs::versioned_state::VersionedState;

#[allow(non_snake_case)]
fn Tx(id: usize, accesses: Vec<AccessMetadata>) -> Transaction<usize> {
    Transaction { payload: id, accesses }
}

fn read(id: u64) -> AccessMetadata {
    AccessMetadata { id, access_type: AccessType::Read }
}

fn write(id: u64) -> AccessMetadata {
    AccessMetadata { id, access_type: AccessType::Write }
}

/// Drives the runtime the way its workers and storage thread would, with a VM that appends
/// the transaction id to every resource it writes.
fn execute(rt: &mut RuntimeManager<usize>, t: usize) {
    assert!(rt.is_ready(t), "read state unknown");
    let id = rt.tx(t).tx().payload;
    let mut handles = rt.access_handles(t);
    for h in handles.iter_mut() {
        if h.access_metadata().access_type() == AccessType::Write {
            h.state_mut().data.extend_from_slice(&id.to_be_bytes());
        }
    }
    rt.execute(t, handles, true);
}

fn run(rt: &mut RuntimeManager<usize>, batches: &mut BatchQueue, committed: &mut Vec<bool>) {
    let local: Worker<usize> = Worker::new_fifo();
    loop {
        let mut progress = false;
        while rt.process_read() {
            progress = true;
        }
        loop {
            if let Some(t) = local.pop() {
                execute(rt, t);
                progress = true;
                continue;
            }
            match batches.steal(rt, &local) {
                Stolen::Success(t) => {
                    execute(rt, t);
                    progress = true;
                }
                Stolen::Retry => {}
                Stolen::Empty => break,
            }
        }
        while rt.next_write_ready() && rt.process_write() {
            progress = true;
        }
        committed.resize(rt.num_batches(), false);
        for b in 0..rt.num_batches() {
            if rt.batch(b).was_persisted() && !committed[b] {
                committed[b] = true;
                rt.schedule_commit(b);
                progress = true;
            }
        }
        if !progress {
            break;
        }
    }
}

fn assert_written_state(store: &Store, id: u64, writers: Vec<usize>) {
    let log: Vec<u8> = writers.iter().flat_map(|w| w.to_be_bytes()).collect();
    let state = VersionedState::from_latest_data(store, id);
    assert_eq!(state.version(), writers.len() as u64);
    assert_eq!(state.state().data, log);
}

#[test]
fn test_runtime() {
    let mut rt: RuntimeManager<usize> = RuntimeManager::new(Store::new());
    let mut committed = Vec::new();
    let mut batches = BatchQueue::new();
    let b = rt.schedule(vec![
        Tx(0, vec![write(1), read(3)]),
        Tx(1, vec![write(1), write(2)]),
        Tx(2, vec![read(3)]),
    ]);
    batches.receive(b);
    let b = rt.schedule(vec![Tx(3, vec![write(1), read(3)]), Tx(4, vec![write(10), write(20)])]);
    batches.receive(b);
    run(&mut rt, &mut batches, &mut committed);
    let store = rt.storage_manager().store();
    assert_written_state(store, 1, vec![0, 1, 3]);
    assert_written_state(store, 2, vec![1]);
    assert_written_state(store, 3, vec![]);
    assert_written_state(store, 10, vec![4]);
    assert_written_state(store, 20, vec![4]);
    for b in 0..rt.num_batches() {
        assert!(rt.batch(b).was_processed());
        assert!(rt.batch(b).was_persisted());
        assert!(rt.batch(b).was_committed());
    }
}
