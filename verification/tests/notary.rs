use vprogs::access::{AccessMetadata, AccessType, Transaction};
use vprogs::manager::RuntimeManager;
use vprogs::notary::{notary_step, NotaryAction, NotaryState};
use vprogs::store::Store;

#[test]
fn test_notary_waits_then_goes_through_the_steps() {
    let mut rt: RuntimeManager<usize> = RuntimeManager::new(Store::new());
    let b = rt.schedule(vec![Transaction {
        payload: 0,
        accesses: vec![AccessMetadata { id: 1, access_type: AccessType::Read }],
    }]);
    let batch = rt.batch(b);
    assert_eq!(notary_step(NotaryState::WaitProcessed, batch, false), (NotaryState::WaitProcessed, NotaryAction::Wait));
    assert_eq!(notary_step(NotaryState::WaitPersisted, batch, false), (NotaryState::WaitPersisted, NotaryAction::Wait));
    assert_eq!(notary_step(NotaryState::WaitCommitted, batch, false), (NotaryState::WaitCommitted, NotaryAction::Wait));
    assert_eq!(
        notary_step(NotaryState::WaitProcessed, batch, true),
        (NotaryState::WaitPersisted, NotaryAction::Notarize)
    );
    assert_eq!(
        notary_step(NotaryState::WaitPersisted, batch, true),
        (NotaryState::WaitCommitted, NotaryAction::ScheduleCommit)
    );
    assert_eq!(
        notary_step(NotaryState::WaitCommitted, batch, true),
        (NotaryState::WaitProcessed, NotaryAction::NextBatch)
    );
    while rt.process_read() {}
    while rt.next_write_ready() && rt.process_write() {}
    let handles = rt.access_handles(0);
    rt.execute(0, handles, true);
    let batch = rt.batch(b);
    assert!(batch.was_processed() && batch.was_persisted());
    assert_eq!(
        notary_step(NotaryState::WaitProcessed, batch, false),
        (NotaryState::WaitPersisted, NotaryAction::Notarize)
    );
    assert_eq!(
        notary_step(NotaryState::WaitPersisted, batch, false),
        (NotaryState::WaitCommitted, NotaryAction::ScheduleCommit)
    );
}
