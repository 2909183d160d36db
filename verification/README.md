# vprogs

The scheduling and storage core of the vprogs Layer 2 runtime, verified with Verus.

Transactions are grouped into batches. Every transaction declares the resources it reads
and writes; the scheduler links each access to the previous access of the same resource,
so that the state one transaction writes is the state the next one reads. A transaction
becomes available for execution once all its accesses know their read state. Per batch
and resource a state diff records the state before and after the batch; storage persists
it together with a rollback pointer, commits it as the latest version, and can roll a
range of batches back.

## Layout

- `src/` — the verified library.
  - `codec`, `store`, `versioned_state`: big-endian keys, the in-memory store with its
    state spaces and write batches, and versioned resource states.
  - `chain`, `runtime_context`: batch numbering and rollback thresholds.
  - `rollback`: reverting the batches of an index range, with what it undoes.
  - `access`, `manager`: transactions, accesses, batches, state diffs, and every step of
    the runtime as a transition of `RuntimeManager`.
  - `pending`: the laws on how many accesses each transaction still waits for.
  - `commit`: the laws on what writing a state diff and committing a batch store.
  - `follow`: the law that every access reads what the access before it wrote.
  - `persist`: the laws that every batch counts exactly the state diffs it has waiting in
    storage, so a processed batch with nothing pending is persisted.
  - `notary`: the steps of notarizing batches in order.
  - `deque`, `batch_queue`, `workers`: the work-stealing queues, how a worker chooses
    where to look for work next, and the round in which idle workers steal from others.
  - `state`: the Borsh encoding of a resource state.
- `tests/` — scenarios run against the compiled library.
- `app/` — the threads around the library: execution workers, the storage thread and
  the notarization thread, and a builder.
