//! The notarization of batches in order: wait until a batch is processed, notarize it, wait
//! until it is persisted, hand its commit to storage, wait until it is committed, then go on
//! with the next batch. A canceled batch is not waited for.

use vstd::prelude::*;

use crate::manager::{BatchView, RuntimeBatch};

verus! {

/// What the notarizer waits for with the current batch.
#[derive(Clone, Copy, PartialEq, Eq, Structural, Debug)]
pub enum NotaryState {
    WaitProcessed,
    WaitPersisted,
    WaitCommitted,
}

/// What the notarizer does next.
#[derive(Clone, Copy, PartialEq, Eq, Structural, Debug)]
pub enum NotaryAction {
    /// Wait for the batch to change, then step again.
    Wait,
    /// Notarize the batch, then step again.
    Notarize,
    /// Hand the batch's commit to storage, then step again.
    ScheduleCommit,
    /// The batch is done; go on with the next one.
    NextBatch,
}

/// The next state and action of the notarizer in `state`, seeing `batch`, which was
/// `canceled` or not.
pub open spec fn notary_next(state: NotaryState, batch: BatchView, canceled: bool) -> (NotaryState, NotaryAction) {
    match state {
        NotaryState::WaitProcessed => if canceled || batch.was_processed {
            (NotaryState::WaitPersisted, NotaryAction::Notarize)
        } else {
            (NotaryState::WaitProcessed, NotaryAction::Wait)
        },
        NotaryState::WaitPersisted => if canceled || batch.was_persisted {
            (NotaryState::WaitCommitted, NotaryAction::ScheduleCommit)
        } else {
            (NotaryState::WaitPersisted, NotaryAction::Wait)
        },
        NotaryState::WaitCommitted => if canceled || batch.was_committed {
            (NotaryState::WaitProcessed, NotaryAction::NextBatch)
        } else {
            (NotaryState::WaitCommitted, NotaryAction::Wait)
        },
    }
}

/// One step of the notarizer: once the batch is past what `state` waits for (or canceled),
/// the action that follows and the next thing to wait for; else wait.
pub fn notary_step(state: NotaryState, batch: &RuntimeBatch, canceled: bool) -> (r: (NotaryState, NotaryAction))
    ensures
        r == notary_next(state, batch@, canceled),
{
    match state {
        NotaryState::WaitProcessed => if canceled || batch.was_processed() {
            (NotaryState::WaitPersisted, NotaryAction::Notarize)
        } else {
            (NotaryState::WaitProcessed, NotaryAction::Wait)
        },
        NotaryState::WaitPersisted => if canceled || batch.was_persisted() {
            (NotaryState::WaitCommitted, NotaryAction::ScheduleCommit)
        } else {
            (NotaryState::WaitPersisted, NotaryAction::Wait)
        },
        NotaryState::WaitCommitted => if canceled || batch.was_committed() {
            (NotaryState::WaitProcessed, NotaryAction::NextBatch)
        } else {
            (NotaryState::WaitCommitted, NotaryAction::Wait)
        },
    }
}

/// Law: the notarizer goes through a batch in order. It notarizes a batch only once it is
/// processed, hands over its commit only once it is persisted, and goes on to the next
/// batch only once it is committed; a canceled batch is not waited for. Whenever the batch
/// is not that far yet, it waits where it is.
pub proof fn lemma_notary_in_order(state: NotaryState, batch: BatchView, canceled: bool)
    ensures
        ({
            let (next, action) = notary_next(state, batch, canceled);
            let ready = canceled || match state {
                NotaryState::WaitProcessed => batch.was_processed,
                NotaryState::WaitPersisted => batch.was_persisted,
                NotaryState::WaitCommitted => batch.was_committed,
            };
            &&& action is Notarize <==> (state == NotaryState::WaitProcessed && ready)
            &&& action is ScheduleCommit <==> (state == NotaryState::WaitPersisted && ready)
            &&& action is NextBatch <==> (state == NotaryState::WaitCommitted && ready)
            &&& action is Wait <==> !ready
            &&& action is Wait ==> next == state
            &&& action is Notarize ==> next == NotaryState::WaitPersisted
            &&& action is ScheduleCommit ==> next == NotaryState::WaitCommitted
            &&& action is NextBatch ==> next == NotaryState::WaitProcessed
        }),
{
}

} // verus!
