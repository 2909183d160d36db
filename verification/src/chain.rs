//! The chain of batch indices that new batches are numbered from.

use vstd::prelude::*;

verus! {

/// The counters of a chain.
pub struct ChainView {
    pub last_batch_index: u64,
    pub rollback_threshold: u64,
}

/// Hands out batch indices and records up to which index its batches survive a rollback.
#[derive(Clone, Copy)]
pub struct Chain {
    last_batch_index: u64,
    rollback_threshold: u64,
}

impl View for Chain {
    type V = ChainView;

    closed spec fn view(&self) -> ChainView {
        ChainView { last_batch_index: self.last_batch_index, rollback_threshold: self.rollback_threshold }
    }
}

/// `x + 1`, wrapping around at the top of `u64`.
pub open spec fn wrapping_inc(x: u64) -> u64 {
    if x == u64::MAX {
        0
    } else {
        (x + 1) as u64
    }
}

/// A call on a chain: taking the next batch index, or rolling back to a threshold.
pub enum ChainStep {
    Next,
    Rollback(u64),
}

/// The chain after one call.
pub open spec fn chain_step(c: ChainView, step: ChainStep) -> ChainView {
    match step {
        ChainStep::Next => ChainView { last_batch_index: wrapping_inc(c.last_batch_index), ..c },
        ChainStep::Rollback(t) => ChainView { rollback_threshold: t, ..c },
    }
}

/// The chain after the calls `steps`, in order.
pub open spec fn chain_after(c: ChainView, steps: Seq<ChainStep>) -> ChainView
    decreases steps.len(),
{
    if steps.len() == 0 {
        c
    } else {
        chain_step(chain_after(c, steps.drop_last()), steps.last())
    }
}

/// The threshold of the last rollback among `steps`, if any.
pub open spec fn last_threshold(steps: Seq<ChainStep>) -> Option<u64>
    decreases steps.len(),
{
    if steps.len() == 0 {
        None
    } else {
        match steps.last() {
            ChainStep::Rollback(t) => Some(t),
            ChainStep::Next => last_threshold(steps.drop_last()),
        }
    }
}

/// Law: after any calls on a chain, its rollback threshold is the one of the last rollback,
/// smaller or larger, or the one it had if there was none; taking batch indices never
/// changes it.
pub proof fn lemma_chain_threshold(c: ChainView, steps: Seq<ChainStep>)
    ensures
        chain_after(c, steps).rollback_threshold == match last_threshold(steps) {
            Some(t) => t,
            None => c.rollback_threshold,
        },
    decreases steps.len(),
{
    if steps.len() > 0 {
        lemma_chain_threshold(c, steps.drop_last());
    }
}

impl Chain {
    /// A chain whose first batch gets `index`, with no rollback threshold.
    pub fn new(index: u64) -> (r: Chain)
        ensures
            r@ == (ChainView { last_batch_index: index, rollback_threshold: u64::MAX }),
    {
        Chain { last_batch_index: index, rollback_threshold: u64::MAX }
    }

    /// Takes the next batch index: returns the counter and advances it by one, wrapping.
    pub fn next_batch_index(&mut self) -> (r: u64)
        ensures
            r == old(self)@.last_batch_index,
            final(self)@.last_batch_index == wrapping_inc(r),
            final(self)@.rollback_threshold == old(self)@.rollback_threshold,
            final(self)@ == chain_step(old(self)@, ChainStep::Next),
    {
        let r = self.last_batch_index;
        self.last_batch_index = if r == u64::MAX {
            0
        } else {
            r + 1
        };
        r
    }

    /// The counter: the index the next batch of this chain gets.
    pub fn last_batch_index(&self) -> (r: u64)
        ensures
            r == self@.last_batch_index,
    {
        self.last_batch_index
    }

    /// Marks every batch of this chain beyond `threshold` as rolled back and returns the chain
    /// that continues from `threshold`.
    pub fn rollback(&mut self, threshold: u64) -> (r: Chain)
        ensures
            final(self)@ == (ChainView { rollback_threshold: threshold, ..old(self)@ }),
            final(self)@ == chain_step(old(self)@, ChainStep::Rollback(threshold)),
            r@ == (ChainView { last_batch_index: threshold, rollback_threshold: u64::MAX }),
    {
        self.rollback_threshold = threshold;
        Chain::new(threshold)
    }

    pub fn rollback_threshold(&self) -> (r: u64)
        ensures
            r == self@.rollback_threshold,
    {
        self.rollback_threshold
    }
}

} // verus!
