use crossbeam_deque::{Stealer, Worker};
use vprogs::deque::Stolen;
use vprogs::workers::{
    steal_from_victims, steal_order, steal_order_from, victim, victim_step, worker_step, WorkerAction, WorkerEvent,
};

#[test]
fn test_steal_order_from_goes_round() {
    assert_eq!(steal_order_from(4, 1, 2), vec![2, 3, 0]);
    assert_eq!(steal_order_from(4, 1, 0), vec![0, 2, 3]);
    assert_eq!(steal_order_from(3, 0, 1), vec![1, 2]);
}

#[test]
fn test_steal_order_visits_every_other_worker_once() {
    for n in 2..8usize {
        for id in 0..n {
            let mut order = steal_order(n, id);
            assert_eq!(order.len(), n - 1);
            order.sort();
            let expected: Vec<usize> = (0..n).filter(|w| *w != id).collect();
            assert_eq!(order, expected);
        }
    }
}

#[test]
fn test_single_worker_has_no_victims() {
    assert!(steal_order(1, 0).is_empty());
    assert!(steal_order(0, 0).is_empty());
}

#[test]
fn test_steal_from_victims_takes_from_the_first_with_work() {
    let queues: Vec<Worker<usize>> = (0..3).map(|_| Worker::new_fifo()).collect();
    queues[2].push(7);
    queues[2].push(8);
    queues[0].push(5);
    let stealers: Vec<Stealer<usize>> = queues.iter().map(Worker::stealer).collect();
    assert_eq!(steal_from_victims(&stealers, &vec![1, 2, 0], 0), (Stolen::Success(7), 1));
    assert_eq!(steal_from_victims(&stealers, &vec![1, 2, 0], 2), (Stolen::Success(5), 2));
    assert_eq!(steal_from_victims(&stealers, &vec![1, 0], 0), (Stolen::Empty, 2));
    assert_eq!(steal_from_victims(&stealers, &vec![2, 1], 0), (Stolen::Success(8), 0));
    assert_eq!(steal_from_victims(&stealers, &vec![2, 1], 0), (Stolen::Empty, 2));
    assert_eq!(steal_from_victims(&stealers, &vec![], 0), (Stolen::Empty, 0));
}

#[test]
fn test_worker_step_prefers_own_queue_then_batches_then_others() {
    assert_eq!(worker_step(WorkerEvent::Popped(Some(3))), WorkerAction::Execute(3));
    assert_eq!(worker_step(WorkerEvent::Popped(None)), WorkerAction::StealFromBatches);
    assert_eq!(worker_step(WorkerEvent::FromBatches(Stolen::Success(4))), WorkerAction::Execute(4));
    assert_eq!(worker_step(WorkerEvent::FromBatches(Stolen::Retry)), WorkerAction::StealFromBatches);
    assert_eq!(worker_step(WorkerEvent::FromBatches(Stolen::Empty)), WorkerAction::StealFromOthers);
    assert_eq!(worker_step(WorkerEvent::FromOthers(Some(9))), WorkerAction::Execute(9));
    assert_eq!(worker_step(WorkerEvent::FromOthers(None)), WorkerAction::Park);
}

#[test]
fn test_victim_step_moves_on_only_past_empty_queues() {
    let order = vec![4, 1, 3];
    assert_eq!(victim_step(&order, 0, Stolen::Empty), (Some(1), None));
    assert_eq!(victim_step(&order, 1, Stolen::Empty), (Some(2), None));
    assert_eq!(victim_step(&order, 2, Stolen::Empty), (None, Some(Stolen::Empty)));
    assert_eq!(victim_step(&order, 0, Stolen::Success(6)), (None, Some(Stolen::Success(6))));
    assert_eq!(victim_step(&order, 1, Stolen::Retry), (None, Some(Stolen::Retry)));
}

#[test]
fn test_victim_is_the_stealer_at_the_position() {
    let queues: Vec<Worker<usize>> = (0..3).map(|_| Worker::new_fifo()).collect();
    queues[2].push(11);
    let stealers: Vec<Stealer<usize>> = queues.iter().map(Worker::stealer).collect();
    let order = vec![0, 2];
    assert!(victim(&stealers, &order, 0).is_empty());
    assert!(!victim(&stealers, &order, 1).is_empty());
    assert_eq!(victim(&stealers, &order, 1).steal().success(), Some(11));
}
