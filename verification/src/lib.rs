//! Versioned state storage, rollback and the transaction scheduling core of
//! the vprogs runtime, modelled as single-threaded state transitions.

pub mod codec;
pub mod store;
pub mod versioned_state;
pub mod chain;
pub mod runtime_context;
pub mod rollback;
pub mod access;
pub mod deque;
pub mod manager;
pub mod pending;
pub mod commit;
pub mod notary;
pub mod follow;
pub mod persist;
pub mod state;
pub mod workers;
pub mod batch_queue;
