//! How an execution worker finds its next transaction: its own queue first, then its
//! batches, then the other workers, in a random round.

use vstd::prelude::*;

use crate::deque::{stealer_steal, Stolen};
use crossbeam_deque::Stealer;

verus! {

/// `fastrand::usize(..n)`: a random index below `n`.
#[verifier::external_body]
fn random_index(n: usize) -> (r: usize)
    requires
        n > 0,
    ensures
        r < n,
{
    fastrand::usize(..n)
}

/// Offset `o` from `start`, going round `n` workers.
pub open spec fn cyc(start: int, o: int, n: int) -> int {
    (start + o) % n
}

/// The workers other than `worker_id` among offsets `0..o` from `start`, cyclically over
/// `worker_count` workers.
pub open spec fn victims(worker_count: int, worker_id: int, start: int, o: int) -> Seq<usize>
    decreases o,
{
    if o <= 0 {
        Seq::empty()
    } else {
        let prev = victims(worker_count, worker_id, start, o - 1);
        let id = cyc(start, o - 1, worker_count);
        if id != worker_id {
            prev.push(id as usize)
        } else {
            prev
        }
    }
}

/// `(start + o) % n` for `start, o < n`.
proof fn lemma_cyclic_index(start: int, o: int, n: int)
    requires
        0 <= start < n,
        0 <= o < n,
    ensures
        (start + o) % n == if start + o < n { start + o } else { start + o - n },
{
    if start + o < n {
        vstd::arithmetic::div_mod::lemma_small_mod((start + o) as nat, n as nat);
    } else {
        vstd::arithmetic::div_mod::lemma_small_mod((start + o - n) as nat, n as nat);
        vstd::arithmetic::div_mod::lemma_mod_add_multiples_vanish(start + o - n, n);
    }
}

/// The ids of `victims(.., o)` are the offsets below `o` that do not land on `worker_id`.
proof fn lemma_victims_members(worker_count: int, worker_id: int, start: int, o: int)
    requires
        0 <= start < worker_count <= usize::MAX,
        0 <= o <= worker_count,
    ensures
        forall|i: int|
            0 <= i < victims(worker_count, worker_id, start, o).len() ==> {
                let id = #[trigger] victims(worker_count, worker_id, start, o)[i] as int;
                &&& id != worker_id
                &&& 0 <= id < worker_count
                &&& exists|p: int| 0 <= p < o && #[trigger] cyc(start, p, worker_count) == id
            },
        forall|p: int|
            0 <= p < o && #[trigger] cyc(start, p, worker_count) != worker_id ==> victims(worker_count, worker_id, start, o).contains(
                cyc(start, p, worker_count) as usize,
            ),
        forall|i: int, j: int|
            0 <= i < j < victims(worker_count, worker_id, start, o).len() ==> victims(worker_count, worker_id, start, o)[i]
                != victims(worker_count, worker_id, start, o)[j],
    decreases o,
{
    if o > 0 {
        lemma_victims_members(worker_count, worker_id, start, o - 1);
        let prev = victims(worker_count, worker_id, start, o - 1);
        let cur = victims(worker_count, worker_id, start, o);
        let id = cyc(start, o - 1, worker_count);
        lemma_cyclic_index(start, o - 1, worker_count);
        assert(0 <= id < worker_count);
        if id != worker_id {
            assert(cur == prev.push(id as usize));
        } else {
            assert(cur == prev);
        }
        assert forall|i: int| 0 <= i < cur.len() implies {
            let x = #[trigger] cur[i] as int;
            &&& x != worker_id
            &&& 0 <= x < worker_count
            &&& exists|p: int| 0 <= p < o && #[trigger] cyc(start, p, worker_count) == x
        } by {
            if i < prev.len() {
                assert(cur[i] == prev[i]);
                let x = prev[i] as int;
                let p = choose|p: int| 0 <= p < o - 1 && #[trigger] cyc(start, p, worker_count) == x;
                assert(0 <= p < o && cyc(start, p, worker_count) == x);
            } else {
                assert(cur[i] == id as usize);
                assert(0 <= o - 1 < o && cyc(start, o - 1, worker_count) == cur[i] as int);
            }
        }
        assert forall|p: int| 0 <= p < o && #[trigger] cyc(start, p, worker_count) != worker_id implies cur.contains(
            cyc(start, p, worker_count) as usize,
        ) by {
            if p < o - 1 {
                assert(prev.contains(cyc(start, p, worker_count) as usize));
                let j = choose|j: int| 0 <= j < prev.len() && prev[j] == cyc(start, p, worker_count) as usize;
                assert(cur[j] == prev[j]);
            } else {
                assert(cur[cur.len() - 1] == cyc(start, p, worker_count) as usize);
            }
        }
        assert forall|i: int, j: int| 0 <= i < j < cur.len() implies cur[i] != cur[j] by {
            if j < prev.len() {
                assert(cur[i] == prev[i] && cur[j] == prev[j]);
            } else {
                assert(cur[i] == prev[i]);
                assert(cur[j] == id as usize);
                let x = prev[i] as int;
                assert(exists|q: int| 0 <= q < o - 1 && #[trigger] cyc(start, q, worker_count) == x);
                let q = choose|q: int| 0 <= q < o - 1 && #[trigger] cyc(start, q, worker_count) == x;
                lemma_cyclic_index(start, q, worker_count);
                assert(x != id);
            }
        }
    }
}

/// Law: every worker other than `worker_id` is visited exactly once.
pub proof fn lemma_victims_visit_others_once(worker_count: int, worker_id: int, start: int)
    requires
        0 <= start < worker_count <= usize::MAX,
    ensures
        forall|id: usize|
            id < worker_count && id != worker_id ==> #[trigger] victims(worker_count, worker_id, start, worker_count).contains(id),
        forall|i: int|
            0 <= i < victims(worker_count, worker_id, start, worker_count).len() ==> {
                let id = #[trigger] victims(worker_count, worker_id, start, worker_count)[i] as int;
                id != worker_id && 0 <= id < worker_count
            },
        forall|i: int, j: int|
            0 <= i < j < victims(worker_count, worker_id, start, worker_count).len() ==> victims(
                worker_count,
                worker_id,
                start,
                worker_count,
            )[i] != victims(worker_count, worker_id, start, worker_count)[j],
{
    lemma_victims_members(worker_count, worker_id, start, worker_count);
    assert forall|id: usize| id < worker_count && id != worker_id implies #[trigger] victims(
        worker_count,
        worker_id,
        start,
        worker_count,
    ).contains(id) by {
        let p = if id >= start { id - start } else { id - start + worker_count };
        lemma_cyclic_index(start, p, worker_count);
        assert(cyc(start, p, worker_count) == id);
    }
}

/// The workers to steal from, in order: starting at `start` and going round, skipping
/// `worker_id`.
pub fn steal_order_from(worker_count: usize, worker_id: usize, start: usize) -> (r: Vec<usize>)
    requires
        start < worker_count,
        worker_count <= usize::MAX / 2,
    ensures
        r@ == victims(worker_count as int, worker_id as int, start as int, worker_count as int),
{
    let mut r: Vec<usize> = Vec::new();
    let mut offset: usize = 0;
    while offset < worker_count
        invariant
            start < worker_count,
            worker_count <= usize::MAX / 2,
            offset <= worker_count,
            r@ == victims(worker_count as int, worker_id as int, start as int, offset as int),
        decreases worker_count - offset,
    {
        let id = (start + offset) % worker_count;
        if id != worker_id {
            r.push(id);
        }
        offset = offset + 1;
    }
    r
}

/// The workers an idle worker steals from, in the order it tries them: none if it is the
/// only worker, else every other worker once, going round from a random start.
pub fn steal_order(worker_count: usize, worker_id: usize) -> (r: Vec<usize>)
    requires
        worker_count <= usize::MAX / 2,
    ensures
        worker_count <= 1 ==> r@.len() == 0,
        worker_count > 1 ==> exists|start: int|
            0 <= start < worker_count && r@ == victims(worker_count as int, worker_id as int, start, worker_count as int),
{
    if worker_count > 1 {
        let start = random_index(worker_count);
        steal_order_from(worker_count, worker_id, start)
    } else {
        Vec::new()
    }
}

/// The stealer of the worker at position `at` of `order`.
pub fn victim<'a>(stealers: &'a Vec<Stealer<usize>>, order: &Vec<usize>, at: usize) -> (r: &'a Stealer<usize>)
    requires
        at < order.len(),
        order@[at as int] < stealers.len(),
    ensures
        *r == stealers@[order@[at as int] as int],
{
    &stealers[order[at]]
}

/// One step of a round over the workers `order`, after the worker at position `at` answered
/// `got`: an empty queue moves the round on to the next position, or ends it with `Empty`
/// after the last; a transaction, or a queue that asks to be tried again, ends the round with
/// that answer. The first part is the position to ask next, the second how the round ended.
pub fn victim_step(order: &Vec<usize>, at: usize, got: Stolen) -> (r: (Option<usize>, Option<Stolen>))
    requires
        at < order.len(),
    ensures
        got is Empty ==> r == (if at + 1 < order@.len() {
            (Some((at + 1) as usize), None::<Stolen>)
        } else {
            (None::<usize>, Some(Stolen::Empty))
        }),
        !(got is Empty) ==> r == (None::<usize>, Some(got)),
{
    match got {
        Stolen::Empty => if at + 1 < order.len() {
            (Some(at + 1), None)
        } else {
            (None, Some(Stolen::Empty))
        },
        _ => (None, Some(got)),
    }
}

/// Asks the worker at position `at` of `order` for a transaction.
pub fn ask_victim(stealers: &Vec<Stealer<usize>>, order: &Vec<usize>, at: usize) -> (r: Stolen)
    requires
        at < order.len(),
        order@[at as int] < stealers.len(),
{
    stealer_steal(victim(stealers, order, at))
}

/// Calls `ask` as a value, so that its answer stays known as `call_ensures(ask, ..)`.
fn ask_through<F: Fn(&Vec<Stealer<usize>>, &Vec<usize>, usize) -> Stolen>(
    ask: F,
    stealers: &Vec<Stealer<usize>>,
    order: &Vec<usize>,
    at: usize,
) -> (r: Stolen)
    requires
        call_requires(ask, (stealers, order, at)),
    ensures
        call_ensures(ask, (stealers, order, at), r),
{
    ask(stealers, order, at)
}

/// A round over the workers `order[from..]`: each is asked in turn (`ask_victim`), and
/// `victim_step` decides from its answer whether to ask the next one or how the round ends.
/// Returns how the round ended and the position of the worker that ended it, or the end of
/// `order` when every queue asked was empty. Every worker before that position was asked and
/// answered `Empty`; the worker at it was asked and gave the answer returned.
pub fn steal_from_victims(stealers: &Vec<Stealer<usize>>, order: &Vec<usize>, from: usize) -> (r: (Stolen, usize))
    requires
        from <= order.len(),
        forall|i: int| 0 <= i < order.len() ==> order@[i] < stealers.len(),
    ensures
        from <= r.1 <= order.len(),
        r.0 is Empty <==> r.1 == order.len(),
        forall|p: usize| from <= p < r.1 ==> #[trigger] call_ensures(ask_victim, (stealers, order, p), Stolen::Empty),
        r.1 < order.len() ==> call_ensures(ask_victim, (stealers, order, r.1), r.0),
{
    if from >= order.len() {
        return (Stolen::Empty, order.len());
    }
    let mut at = from;
    loop
        invariant
            from <= at < order.len(),
            forall|i: int| 0 <= i < order.len() ==> order@[i] < stealers.len(),
            forall|p: usize| from <= p < at ==> #[trigger] call_ensures(ask_victim, (stealers, order, p), Stolen::Empty),
        decreases order.len() - at,
    {
        let got = ask_through(ask_victim, stealers, order, at);
        match victim_step(order, at, got) {
            (Some(next), _) => {
                at = next;
            },
            (None, Some(Stolen::Empty)) => {
                return (Stolen::Empty, order.len());
            },
            (None, Some(end)) => {
                return (end, at);
            },
            (None, None) => {
                assert(false);
                return (Stolen::Empty, order.len());
            },
        }
    }
}

/// What an execution worker learned from its last attempt to find work.
#[derive(Clone, Copy, PartialEq, Eq, Structural, Debug)]
pub enum WorkerEvent {
    /// What its own queue gave.
    Popped(Option<usize>),
    /// What its batches gave.
    FromBatches(Stolen),
    /// What a round over the other workers gave.
    FromOthers(Option<usize>),
}

/// What an execution worker does next.
#[derive(Clone, Copy, PartialEq, Eq, Structural, Debug)]
pub enum WorkerAction {
    /// Take a transaction from its batches.
    StealFromBatches,
    /// Take a transaction from the other workers.
    StealFromOthers,
    /// Execute the transaction.
    Execute(usize),
    /// Wait for work.
    Park,
}

/// The next step of a worker that looks for work, its own queue first, then its batches
/// (again while their queue asks to be tried again), then the other workers, and parks
/// when none had any.
pub open spec fn next_worker_action(e: WorkerEvent) -> WorkerAction {
    match e {
        WorkerEvent::Popped(Some(t)) => WorkerAction::Execute(t),
        WorkerEvent::Popped(None) => WorkerAction::StealFromBatches,
        WorkerEvent::FromBatches(Stolen::Success(t)) => WorkerAction::Execute(t),
        WorkerEvent::FromBatches(Stolen::Retry) => WorkerAction::StealFromBatches,
        WorkerEvent::FromBatches(Stolen::Empty) => WorkerAction::StealFromOthers,
        WorkerEvent::FromOthers(Some(t)) => WorkerAction::Execute(t),
        WorkerEvent::FromOthers(None) => WorkerAction::Park,
    }
}

/// Decides what a worker looking for work does after `e`.
pub fn worker_step(e: WorkerEvent) -> (a: WorkerAction)
    ensures
        a == next_worker_action(e),
{
    match e {
        WorkerEvent::Popped(Some(t)) => WorkerAction::Execute(t),
        WorkerEvent::Popped(None) => WorkerAction::StealFromBatches,
        WorkerEvent::FromBatches(Stolen::Success(t)) => WorkerAction::Execute(t),
        WorkerEvent::FromBatches(Stolen::Retry) => WorkerAction::StealFromBatches,
        WorkerEvent::FromBatches(Stolen::Empty) => WorkerAction::StealFromOthers,
        WorkerEvent::FromOthers(Some(t)) => WorkerAction::Execute(t),
        WorkerEvent::FromOthers(None) => WorkerAction::Park,
    }
}

} // verus!
