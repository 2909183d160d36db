use vprogs::chain::Chain;
use vprogs::runtime_context::RuntimeContext;

#[test]
fn test_chain_numbering() {
    let mut chain = Chain::new(5);
    assert_eq!(chain.last_batch_index(), 5);
    assert_eq!(chain.rollback_threshold(), u64::MAX);
    assert_eq!(chain.next_batch_index(), 5);
    assert_eq!(chain.next_batch_index(), 6);
    assert_eq!(chain.last_batch_index(), 7);
}

#[test]
fn test_chain_wraps() {
    let mut chain = Chain::new(u64::MAX);
    assert_eq!(chain.next_batch_index(), u64::MAX);
    assert_eq!(chain.last_batch_index(), 0);
}

#[test]
fn test_chain_rollback() {
    let mut chain = Chain::new(0);
    chain.next_batch_index();
    chain.next_batch_index();
    let mut next = chain.rollback(1);
    assert_eq!(chain.rollback_threshold(), 1);
    assert_eq!(chain.last_batch_index(), 2);
    assert_eq!(next.last_batch_index(), 1);
    assert_eq!(next.next_batch_index(), 1);
    assert_eq!(next.rollback_threshold(), u64::MAX);
}

#[test]
fn test_runtime_context_numbering_and_rollback() {
    let mut ctx = RuntimeContext::new(0);
    assert_eq!(ctx.next_batch_index(), 1);
    assert_eq!(ctx.next_batch_index(), 2);
    assert_eq!(ctx.last_batch_index(), 2);
    assert_eq!(ctx.rollback_threshold(), u64::MAX);
    ctx.rollback(1);
    assert_eq!(ctx.last_batch_index(), 2);
    assert_eq!(ctx.next_batch_index(), 3);
    assert_eq!(ctx.rollback_threshold(), u64::MAX);
}
