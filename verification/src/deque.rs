//! The work-stealing queues of `crossbeam_deque` that hold transactions ready to execute.

use vstd::prelude::*;

use crossbeam_deque::{Injector, Steal, Stealer, Worker};

verus! {

#[verifier::external_type_specification]
#[verifier::external_body]
#[verifier::reject_recursive_types(T)]
pub struct ExInjector<T>(Injector<T>);

#[verifier::external_type_specification]
#[verifier::external_body]
#[verifier::reject_recursive_types(T)]
pub struct ExWorker<T>(Worker<T>);

#[verifier::external_type_specification]
#[verifier::external_body]
#[verifier::reject_recursive_types(T)]
pub struct ExStealer<T>(Stealer<T>);

/// The tasks an injector holds, oldest first.
pub uninterp spec fn injector_contents(q: Injector<usize>) -> Seq<usize>;

/// What an attempt to take a task from a queue found.
#[derive(Clone, Copy, PartialEq, Eq, Structural, Debug)]
pub enum Stolen {
    /// The queue was empty.
    Empty,
    /// A task was taken.
    Success(usize),
    /// The attempt has to be repeated.
    Retry,
}

/// `Injector::new`: an empty queue.
#[verifier::external_body]
pub(crate) fn injector_new() -> (r: Injector<usize>)
    ensures
        injector_contents(r) == Seq::<usize>::empty(),
{
    Injector::new()
}

/// `Injector::push`: appends `task` at the back.
#[verifier::external_body]
pub(crate) fn injector_push(q: &mut Injector<usize>, task: usize)
    ensures
        injector_contents(*final(q)) == injector_contents(*old(q)).push(task),
{
    q.push(task)
}

/// `Injector::len`: the number of tasks.
#[verifier::external_body]
pub(crate) fn injector_len(q: &Injector<usize>) -> (r: usize)
    ensures
        r == injector_contents(*q).len(),
{
    q.len()
}

/// `Injector::is_empty`: whether no task is queued.
#[verifier::external_body]
pub(crate) fn injector_is_empty(q: &Injector<usize>) -> (r: bool)
    ensures
        r == (injector_contents(*q).len() == 0),
{
    q.is_empty()
}

/// `Injector::steal_batch_and_pop` into the worker queue `dest`: on success the oldest task is
/// returned and some number of the tasks after it leave the injector for the back of `dest`
/// (how many the crate leaves unspecified; what `dest` then holds is not tracked here, as
/// stealers share it); an empty injector gives `Empty`, found before any attempt to move the
/// head; `Retry` changes nothing. A non-empty injector may answer `Retry`, since the crate
/// moves the head with a weak compare-and-exchange, which may fail spuriously.
#[verifier::external_body]
pub(crate) fn injector_steal_batch_and_pop(q: &mut Injector<usize>, dest: &Worker<usize>) -> (r: Stolen)
    ensures
        injector_contents(*old(q)).len() == 0 ==> r is Empty,
        match r {
            Stolen::Success(t) => {
                &&& injector_contents(*old(q)).len() > 0
                &&& t == injector_contents(*old(q))[0]
                &&& injector_contents(*final(q)).len() < injector_contents(*old(q)).len()
                &&& injector_contents(*final(q)) == injector_contents(*old(q)).skip(
                    injector_contents(*old(q)).len() - injector_contents(*final(q)).len(),
                )
            },
            Stolen::Empty => injector_contents(*old(q)).len() == 0 && injector_contents(*final(q))
                == injector_contents(*old(q)),
            Stolen::Retry => injector_contents(*final(q)) == injector_contents(*old(q)),
        },
{
    match q.steal_batch_and_pop(dest) {
        Steal::Success(t) => Stolen::Success(t),
        Steal::Empty => Stolen::Empty,
        Steal::Retry => Stolen::Retry,
    }
}

/// `Stealer::steal`: an attempt to take the oldest task of another worker's queue. What it
/// finds depends on what the other threads do with that queue meanwhile, so nothing is
/// stated of the result.
#[verifier::external_body]
pub(crate) fn stealer_steal(s: &Stealer<usize>) -> (r: Stolen) {
    match s.steal() {
        Steal::Success(t) => Stolen::Success(t),
        Steal::Empty => Stolen::Empty,
        Steal::Retry => Stolen::Retry,
    }
}

} // verus!
