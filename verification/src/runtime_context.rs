//! The numbering context of batches, which a rollback replaces by a child context.

use vstd::prelude::*;

verus! {

/// A context and, behind it, the context it replaced.
pub struct RuntimeContextView {
    pub last_batch_index: u64,
    pub rollback_threshold: u64,
    pub parent: Option<Box<RuntimeContextView>>,
}

/// A call on a context: taking the next batch index, or rolling back to a threshold.
pub enum ContextStep {
    Next,
    Rollback(u64),
}

/// The context after one call.
pub open spec fn context_step(c: RuntimeContextView, step: ContextStep) -> RuntimeContextView {
    match step {
        ContextStep::Next => RuntimeContextView { last_batch_index: (c.last_batch_index + 1) as u64, ..c },
        ContextStep::Rollback(t) => RuntimeContextView {
            parent: Some(Box::new(RuntimeContextView { rollback_threshold: t, ..c })),
            ..c
        },
    }
}

/// The context after the calls `steps`, in order.
pub open spec fn context_after(c: RuntimeContextView, steps: Seq<ContextStep>) -> RuntimeContextView
    decreases steps.len(),
{
    if steps.len() == 0 {
        c
    } else {
        context_step(context_after(c, steps.drop_last()), steps.last())
    }
}

/// How many of `steps` take a batch index.
pub open spec fn count_next(steps: Seq<ContextStep>) -> nat
    decreases steps.len(),
{
    if steps.len() == 0 {
        0
    } else {
        count_next(steps.drop_last()) + if steps.last() is Next { 1nat } else { 0nat }
    }
}

/// Law: after any calls on a context, its last batch index has grown by the number of
/// indices taken (rollbacks carry the counter over), and its own rollback threshold is
/// unchanged: a rollback puts its threshold on the context it replaces.
pub proof fn lemma_context_counts(c: RuntimeContextView, steps: Seq<ContextStep>)
    requires
        c.last_batch_index + count_next(steps) <= u64::MAX,
    ensures
        context_after(c, steps).last_batch_index == c.last_batch_index + count_next(steps),
        context_after(c, steps).rollback_threshold == c.rollback_threshold,
    decreases steps.len(),
{
    if steps.len() > 0 {
        lemma_context_counts(c, steps.drop_last());
    }
}

pub struct RuntimeContext {
    parent_context: Option<Box<RuntimeContext>>,
    last_batch_index: u64,
    rollback_threshold: u64,
}

pub closed spec fn context_view(c: RuntimeContext) -> RuntimeContextView
    decreases c,
{
    RuntimeContextView {
        last_batch_index: c.last_batch_index,
        rollback_threshold: c.rollback_threshold,
        parent: match c.parent_context {
            None => None,
            Some(p) => Some(Box::new(context_view(*p))),
        },
    }
}

impl View for RuntimeContext {
    type V = RuntimeContextView;

    closed spec fn view(&self) -> RuntimeContextView {
        context_view(*self)
    }
}

impl RuntimeContext {
    /// A root context whose last batch index is `index`, with no rollback threshold.
    pub fn new(index: u64) -> (r: RuntimeContext)
        ensures
            r@ == (RuntimeContextView {
                last_batch_index: index,
                rollback_threshold: u64::MAX,
                parent: None,
            }),
    {
        RuntimeContext { parent_context: None, last_batch_index: index, rollback_threshold: u64::MAX }
    }

    pub fn last_batch_index(&self) -> (r: u64)
        ensures
            r == self@.last_batch_index,
    {
        self.last_batch_index
    }

    /// Advances the last batch index by one and returns the new value.
    pub fn next_batch_index(&mut self) -> (r: u64)
        requires
            old(self)@.last_batch_index < u64::MAX,
        ensures
            r == old(self)@.last_batch_index + 1,
            final(self)@ == (RuntimeContextView { last_batch_index: r, ..old(self)@ }),
            final(self)@ == context_step(old(self)@, ContextStep::Next),
    {
        self.last_batch_index = self.last_batch_index + 1;
        self.last_batch_index
    }

    /// Replaces this context by a child that keeps its counters, while the replaced context,
    /// now the parent, marks every batch beyond `threshold` as rolled back.
    pub fn rollback(&mut self, threshold: u64)
        ensures
            final(self)@ == (RuntimeContextView {
                parent: Some(Box::new(RuntimeContextView { rollback_threshold: threshold, ..old(self)@ })),
                ..old(self)@
            }),
            final(self)@ == context_step(old(self)@, ContextStep::Rollback(threshold)),
    {
        let last = self.last_batch_index;
        let kept_threshold = self.rollback_threshold;
        let mut parent = RuntimeContext::new(0);
        std::mem::swap(self, &mut parent);
        parent.rollback_threshold = threshold;
        assert(context_view(parent) == RuntimeContextView { rollback_threshold: threshold, ..old(self)@ });
        *self = RuntimeContext {
            parent_context: Some(Box::new(parent)),
            last_batch_index: last,
            rollback_threshold: kept_threshold,
        };
    }

    pub fn rollback_threshold(&self) -> (r: u64)
        ensures
            r == self@.rollback_threshold,
    {
        self.rollback_threshold
    }
}

} // verus!
