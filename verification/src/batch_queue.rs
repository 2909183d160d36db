//! The batches a worker takes transactions from, oldest first.
//!
//! The list is a `Vec` of batch ids: an intrusive list would need an adapter that only a
//! macro of its crate writes. Batches that arrive from other threads wait in the worker's
//! inbox, which other threads fill through a shared reference; the runtime threads hand
//! them over with `receive`.

use vstd::prelude::*;

use crate::deque::Stolen;
use crate::manager::{set_batch, wf_view, BatchView, ManagerView, RuntimeManager};
use crossbeam_deque::Worker;

verus! {

/// No transaction of batch `b` is pending and none is available.
pub open spec fn depleted(m: ManagerView, b: usize) -> bool {
    m.batches[b as int].pending_txs == 0 && m.batches[b as int].available_txs.len() == 0
}

/// The batches of `s` that are not depleted.
pub open spec fn live(m: ManagerView, s: Seq<usize>) -> Seq<usize> {
    s.filter(|b: usize| !depleted(m, b))
}

/// `s` after a scan visited its first `j` batches, dropping the depleted ones.
pub open spec fn scanned(m: ManagerView, s: Seq<usize>, j: int) -> Seq<usize> {
    live(m, s.take(j)) + s.skip(j)
}

/// None of the first `j` batches of `s` has a transaction available.
pub open spec fn none_available(m: ManagerView, s: Seq<usize>, j: int) -> bool {
    forall|k: int| 0 <= k < j ==> (#[trigger] m.batches[s[k] as int]).available_txs.len() == 0
}

/// What taking from batch `b` of `m` gave, leading to `m2`.
pub open spec fn took_from(m: ManagerView, b: int, r: Stolen, m2: ManagerView) -> bool {
    let x = m.batches[b];
    let y = m2.batches[b];
    match r {
        Stolen::Success(t) => {
            &&& x.available_txs.len() > 0
            &&& t == x.available_txs[0]
            &&& y.available_txs.len() < x.available_txs.len()
            &&& y.available_txs == x.available_txs.skip(x.available_txs.len() - y.available_txs.len())
            &&& m2 == set_batch(m, b, BatchView { available_txs: y.available_txs, ..x })
        },
        Stolen::Empty => x.available_txs.len() == 0 && m2 == m,
        Stolen::Retry => x.available_txs.len() > 0 && m2 == m,
    }
}

/// The batch list of a worker: the batches it works through and those that arrived since
/// it last looked.
pub struct BatchQueueView {
    pub queue: Seq<usize>,
    pub new_batches: Seq<usize>,
}

pub struct BatchQueue {
    queue: Vec<usize>,
    new_batches: Vec<usize>,
}

impl View for BatchQueue {
    type V = BatchQueueView;

    closed spec fn view(&self) -> BatchQueueView {
        BatchQueueView { queue: self.queue@, new_batches: self.new_batches@ }
    }
}

/// Every batch `q` names exists in `m`.
pub open spec fn batches_known(q: BatchQueueView, m: ManagerView) -> bool {
    &&& forall|i: int| 0 <= i < q.queue.len() ==> #[trigger] q.queue[i] < m.batches.len()
    &&& forall|i: int| 0 <= i < q.new_batches.len() ==> #[trigger] q.new_batches[i] < m.batches.len()
}

impl BatchQueue {
    pub fn new() -> (r: BatchQueue)
        ensures
            r@.queue == Seq::<usize>::empty(),
            r@.new_batches == Seq::<usize>::empty(),
    {
        BatchQueue { queue: Vec::new(), new_batches: Vec::new() }
    }

    /// Batch `b` arrives in the inbox.
    pub fn receive(&mut self, b: usize)
        ensures
            final(self)@.queue == old(self)@.queue,
            final(self)@.new_batches == old(self)@.new_batches.push(b),
    {
        self.new_batches.push(b);
    }

    /// Moves the batches that arrived to the end of the list; tells whether there were any.
    fn try_pull_new_batches(&mut self) -> (r: bool)
        ensures
            r == (old(self)@.new_batches.len() > 0),
            final(self)@.queue == old(self)@.queue + old(self)@.new_batches,
            final(self)@.new_batches == Seq::<usize>::empty(),
    {
        let pulled = self.new_batches.len() > 0;
        self.queue.append(&mut self.new_batches);
        pulled
    }

    /// Goes through the list in order, taking a transaction from the first batch that has
    /// one and dropping the depleted batches it passes. `None` when it reached the end.
    fn scan<T>(&mut self, rt: &mut RuntimeManager<T>, worker: &Worker<usize>) -> (r: Option<Stolen>)
        requires
            old(rt).wf(),
            batches_known(old(self)@, old(rt)@),
        ensures
            final(rt).wf(),
            final(rt).payloads() == old(rt).payloads(),
            final(self)@.new_batches == old(self)@.new_batches,
            batches_known(final(self)@, final(rt)@),
            final(rt)@.batches.len() == old(rt)@.batches.len(),
            match r {
                None => {
                    &&& final(rt)@ == old(rt)@
                    &&& none_available(old(rt)@, old(self)@.queue, old(self)@.queue.len() as int)
                    &&& final(self)@.queue == live(old(rt)@, old(self)@.queue)
                },
                Some(s) => s != Stolen::Empty && exists|j: int|
                    0 <= j < old(self)@.queue.len() && none_available(old(rt)@, old(self)@.queue, j)
                        && final(self)@.queue == scanned(old(rt)@, old(self)@.queue, j) && #[trigger] took_from(
                        old(rt)@,
                        old(self)@.queue[j] as int,
                        s,
                        final(rt)@,
                    ),
            },
    {
        let ghost m = rt@;
        let ghost s = self.queue@;
        let mut i: usize = 0;
        let ghost mut j: int = 0;
        proof {
            assert(s.take(0) =~= Seq::<usize>::empty());
            assert(live(m, s.take(0)) =~= Seq::<usize>::empty()) by {
                reveal(Seq::filter);
            }
            assert(s.skip(0) =~= s);
            assert(self.queue@ =~= scanned(m, s, 0));
        }
        while i < self.queue.len()
            invariant
                rt.wf(),
                rt@ == m,
                rt.payloads() == old(rt).payloads(),
                0 <= j <= s.len(),
                self.queue@ == scanned(m, s, j),
                i == live(m, s.take(j)).len(),
                none_available(m, s, j),
                self@.new_batches == old(self)@.new_batches,
                s == old(self)@.queue,
                m == old(rt)@,
                batches_known(old(self)@, m),
            decreases self.queue@.len() - i,
        {
            proof {
                assert(self.queue@[i as int] == s[j]) by {
                    assert(self.queue@ == live(m, s.take(j)) + s.skip(j));
                }
                assert(j < s.len()) by {
                    assert(self.queue@.len() == live(m, s.take(j)).len() + s.skip(j).len());
                }
            }
            let b = self.queue[i];
            let got = rt.steal_available_tasks(b, worker);
            match got {
                Stolen::Empty => {
                    proof {
                        assert(s.take(j + 1) =~= s.take(j).push(s[j]));
                        s.take(j).lemma_filter_push(s[j], |b: usize| !depleted(m, b));
                        assert(s.skip(j) =~= seq![s[j]] + s.skip(j + 1));
                    }
                    if rt.batch(b).is_depleted() {
                        self.queue.remove(i);
                        proof {
                            assert(live(m, s.take(j + 1)) == live(m, s.take(j)));
                            assert(self.queue@ =~= scanned(m, s, j + 1));
                        }
                    } else {
                        proof {
                            assert(live(m, s.take(j + 1)) == live(m, s.take(j)).push(s[j]));
                            assert(self.queue@ =~= scanned(m, s, j + 1));
                        }
                        i = i + 1;
                    }
                    proof {
                        j = j + 1;
                    }
                },
                _ => {
                    proof {
                        assert(took_from(m, s[j] as int, got, rt@));
                        assert forall|k: int| 0 <= k < self.queue@.len() implies #[trigger] self.queue@[k] < rt@.batches.len() by {
                            let pre = live(m, s.take(j));
                            if k < pre.len() {
                                assert(pre.contains(pre[k]));
                                s.take(j).lemma_filter_contains_rev(|b: usize| !depleted(m, b), pre[k]);
                                let x = choose|x: int| 0 <= x < s.take(j).len() && s.take(j)[x] == pre[k];
                                assert(s[x] == pre[k]);
                            } else {
                                assert(self.queue@[k] == s[k - pre.len() + j]);
                            }
                        }
                    }
                    return Some(got);
                },
            }
        }
        proof {
            assert(j == s.len()) by {
                assert(self.queue@.len() == live(m, s.take(j)).len() + s.skip(j).len());
            }
            assert(s.take(j) =~= s);
            assert(s.skip(j) =~= Seq::<usize>::empty());
            assert(self.queue@ =~= live(m, s));
            assert forall|k: int| 0 <= k < self.queue@.len() implies #[trigger] self.queue@[k] < rt@.batches.len() by {
                assert(self.queue@.contains(self.queue@[k]));
                s.lemma_filter_contains_rev(|b: usize| !depleted(m, b), self.queue@[k]);
                let x = choose|x: int| 0 <= x < s.len() && s[x] == self.queue@[k];
            }
        }
        None
    }

    /// Takes a transaction from the first batch of the list that has one, dropping the
    /// depleted batches on the way; when the list has none, pulls in the batches that
    /// arrived and tries once more. `Retry` when the queue of a batch that had a transaction
    /// asked to be tried again; `Empty` exactly when no batch of the list or of the arrived
    /// ones had one.
    pub fn steal<T>(&mut self, rt: &mut RuntimeManager<T>, worker: &Worker<usize>) -> (r: Stolen)
        requires
            old(rt).wf(),
            batches_known(old(self)@, old(rt)@),
        ensures
            final(rt).wf(),
            final(rt).payloads() == old(rt).payloads(),
            batches_known(final(self)@, final(rt)@),
            ({
                let m = old(rt)@;
                let s0 = old(self)@.queue;
                let nb = old(self)@.new_batches;
                let s1 = live(m, s0) + nb;
                match r {
                    Stolen::Empty => {
                        &&& final(rt)@ == m
                        &&& none_available(m, s0, s0.len() as int)
                        &&& none_available(m, nb, nb.len() as int)
                        &&& final(self)@.new_batches == Seq::<usize>::empty()
                        &&& final(self)@.queue == if nb.len() == 0 { live(m, s0) } else { live(m, s1) }
                    },
                    _ => {
                        ||| exists|j: int|
                            0 <= j < s0.len() && none_available(m, s0, j) && final(self)@.queue == scanned(m, s0, j)
                                && final(self)@.new_batches == nb && #[trigger] took_from(m, s0[j] as int, r, final(rt)@)
                        ||| {
                            &&& none_available(m, s0, s0.len() as int)
                            &&& final(self)@.new_batches == Seq::<usize>::empty()
                            &&& exists|j: int|
                                0 <= j < s1.len() && none_available(m, s1, j) && final(self)@.queue == scanned(m, s1, j)
                                    && #[trigger] took_from(m, s1[j] as int, r, final(rt)@)
                        }
                    },
                }
            }),
    {
        let ghost m = rt@;
        let ghost s0 = self@.queue;
        let ghost nb = self@.new_batches;
        match self.scan(rt, worker) {
            Some(r) => r,
            None => {
                if self.try_pull_new_batches() {
                    let ghost s1 = self@.queue;
                    proof {
                        assert(s1 == live(m, s0) + nb);
                    }
                    match self.scan(rt, worker) {
                        Some(r) => r,
                        None => {
                            proof {
                                assert forall|k: int| 0 <= k < nb.len() implies (#[trigger] m.batches[nb[k] as int]).available_txs.len() == 0 by {
                                    assert(s1[live(m, s0).len() + k] == nb[k]);
                                }
                            }
                            Stolen::Empty
                        },
                    }
                } else {
                    Stolen::Empty
                }
            },
        }
    }
}

} // verus!
