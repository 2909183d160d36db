//! An in-memory key-value store split into state spaces, with write batches
//! that are applied atomically and in order.

use vstd::prelude::*;

verus! {

/// The column families of the store.
#[derive(Clone, Copy, PartialEq, Eq, Structural, Debug)]
pub enum StateSpace {
    /// Versioned resource data, keyed by `version || resource_id`.
    Data,
    /// The latest committed version of each resource, keyed by `resource_id`.
    LatestPtr,
    /// The version a resource had before a batch, keyed by `batch_index || resource_id`.
    RollbackPtr,
}

/// Byte-equality of two vectors.
pub fn bytes_eq(a: &Vec<u8>, b: &Vec<u8>) -> (r: bool)
    ensures
        r == (a@ == b@),
{
    if a.len() != b.len() {
        return false;
    }
    let mut i: usize = 0;
    while i < a.len()
        invariant
            a@.len() == b@.len(),
            i <= a@.len(),
            forall|j: int| 0 <= j < i ==> a@[j] == b@[j],
        decreases a@.len() - i,
    {
        if a[i] != b[i] {
            return false;
        }
        i = i + 1;
    }
    assert(a@ =~= b@);
    true
}

/// Copies a byte vector.
pub fn copy_bytes(a: &Vec<u8>) -> (r: Vec<u8>)
    ensures
        r@ == a@,
{
    let mut r: Vec<u8> = Vec::new();
    let mut i: usize = 0;
    while i < a.len()
        invariant
            i <= a@.len(),
            r@ == a@.subrange(0, i as int),
        decreases a@.len() - i,
    {
        r.push(a[i]);
        i = i + 1;
        assert(r@ =~= a@.subrange(0, i as int));
    }
    assert(a@.subrange(0, a@.len() as int) =~= a@);
    r
}

/// One state space: an association list of distinct keys.
pub struct Column {
    keys: Vec<Vec<u8>>,
    values: Vec<Vec<u8>>,
    contents: Ghost<Map<Seq<u8>, Seq<u8>>>,
}

impl View for Column {
    type V = Map<Seq<u8>, Seq<u8>>;

    closed spec fn view(&self) -> Map<Seq<u8>, Seq<u8>> {
        self.contents@
    }
}

impl Column {
    /// The lists describe the map: same keys, same values, no key twice.
    pub closed spec fn wf(&self) -> bool {
        &&& self.keys@.len() == self.values@.len()
        &&& forall|i: int|
            0 <= i < self.keys@.len() ==> #[trigger] self.contents@.contains_key(self.keys@[i]@)
                && self.contents@[self.keys@[i]@] == self.values@[i]@
        &&& forall|k: Seq<u8>|
            #[trigger] self.contents@.contains_key(k) ==> exists|i: int|
                0 <= i < self.keys@.len() && self.keys@[i]@ == k
        &&& forall|i: int, j: int|
            0 <= i < j < self.keys@.len() ==> self.keys@[i]@ != self.keys@[j]@
    }

    pub fn new() -> (r: Column)
        ensures
            r.wf(),
            r@ == Map::<Seq<u8>, Seq<u8>>::empty(),
    {
        Column { keys: Vec::new(), values: Vec::new(), contents: Ghost(Map::empty()) }
    }

    /// The position of `key`, if present.
    fn find(&self, key: &Vec<u8>) -> (r: Option<usize>)
        requires
            self.wf(),
        ensures
            match r {
                Some(i) => i < self.keys@.len() && self.keys@[i as int]@ == key@,
                None => !self@.contains_key(key@),
            },
    {
        let mut i: usize = 0;
        while i < self.keys.len()
            invariant
                self.wf(),
                i <= self.keys@.len(),
                forall|j: int| 0 <= j < i ==> self.keys@[j]@ != key@,
            decreases self.keys@.len() - i,
        {
            if bytes_eq(&self.keys[i], key) {
                return Some(i);
            }
            i = i + 1;
        }
        proof {
            if self.contents@.contains_key(key@) {
                let j = choose|j: int| 0 <= j < self.keys@.len() && self.keys@[j]@ == key@;
                assert(self.keys@[j]@ != key@);
            }
        }
        None
    }

    pub fn get(&self, key: &Vec<u8>) -> (r: Option<Vec<u8>>)
        requires
            self.wf(),
        ensures
            match r {
                Some(v) => self@.contains_key(key@) && self@[key@] == v@,
                None => !self@.contains_key(key@),
            },
    {
        match self.find(key) {
            Some(i) => {
                proof {
                    assert(self.contents@.contains_key(self.keys@[i as int]@));
                }
                Some(copy_bytes(&self.values[i]))
            },
            None => None,
        }
    }

    pub fn put(&mut self, key: &Vec<u8>, value: &Vec<u8>)
        requires
            old(self).wf(),
        ensures
            final(self).wf(),
            final(self)@ == old(self)@.insert(key@, value@),
    {
        let ghost new_map = self.contents@.insert(key@, value@);
        match self.find(key) {
            Some(i) => {
                self.values.set(i, copy_bytes(value));
                self.contents = Ghost(new_map);
                assert forall|j: int| 0 <= j < self.keys@.len() implies #[trigger] self.contents@.contains_key(
                    self.keys@[j]@) && self.contents@[self.keys@[j]@] == self.values@[j]@ by {
                    if j != i {
                        assert(old(self).contents@.contains_key(old(self).keys@[j]@));
                    }
                }
                assert forall|k: Seq<u8>| #[trigger] self.contents@.contains_key(k) implies exists|j: int|
                    0 <= j < self.keys@.len() && self.keys@[j]@ == k by {
                    if k != key@ {
                        assert(old(self).contents@.contains_key(k));
                    }
                }
            },
            None => {
                self.keys.push(copy_bytes(key));
                self.values.push(copy_bytes(value));
                self.contents = Ghost(new_map);
                let ghost n = self.keys@.len() - 1;
                assert forall|k: Seq<u8>| #[trigger] self.contents@.contains_key(k) implies exists|j: int|
                    0 <= j < self.keys@.len() && self.keys@[j]@ == k by {
                    if k != key@ {
                        assert(old(self).contents@.contains_key(k));
                        let j = choose|j: int| 0 <= j < old(self).keys@.len() && old(self).keys@[j]@ == k;
                        assert(self.keys@[j]@ == k);
                    } else {
                        assert(self.keys@[n]@ == k);
                    }
                }
                assert forall|i: int, j: int| 0 <= i < j < self.keys@.len() implies self.keys@[i]@
                    != self.keys@[j]@ by {
                    if j == n {
                        assert(old(self).contents@.contains_key(old(self).keys@[i]@));
                    }
                }
            },
        }
    }

    pub fn delete(&mut self, key: &Vec<u8>)
        requires
            old(self).wf(),
        ensures
            final(self).wf(),
            final(self)@ == old(self)@.remove(key@),
    {
        let ghost new_map = self.contents@.remove(key@);
        match self.find(key) {
            Some(i) => {
                let ghost ok = self.keys@;
                let ghost ov = self.values@;
                self.keys.remove(i);
                self.values.remove(i);
                self.contents = Ghost(new_map);
                assert forall|j: int| 0 <= j < self.keys@.len() implies #[trigger] self.contents@.contains_key(
                    self.keys@[j]@) && self.contents@[self.keys@[j]@] == self.values@[j]@ by {
                    let j2 = if j < i { j } else { j + 1 };
                    assert(self.keys@[j] == ok[j2]);
                    assert(self.values@[j] == ov[j2]);
                    assert(ok[j2]@ != ok[i as int]@);
                    assert(old(self).contents@.contains_key(ok[j2]@));
                }
                assert forall|k: Seq<u8>| #[trigger] self.contents@.contains_key(k) implies exists|j: int|
                    0 <= j < self.keys@.len() && self.keys@[j]@ == k by {
                    assert(old(self).contents@.contains_key(k));
                    let j = choose|j: int| 0 <= j < ok.len() && ok[j]@ == k;
                    assert(j != i);
                    if j < i {
                        assert(self.keys@[j] == ok[j]);
                    } else {
                        assert(self.keys@[j - 1] == ok[j]);
                    }
                }
                assert forall|a: int, b: int| 0 <= a < b < self.keys@.len() implies self.keys@[a]@
                    != self.keys@[b]@ by {
                    let a2 = if a < i { a } else { a + 1 };
                    let b2 = if b < i { b } else { b + 1 };
                    assert(self.keys@[a] == ok[a2]);
                    assert(self.keys@[b] == ok[b2]);
                }
                assert(self.keys@.len() == self.values@.len());
                assert(self.wf());
            },
            None => {
                assert(new_map =~= self.contents@);
            },
        }
    }

    /// All entries whose key starts with `prefix`, in storage order.
    pub fn prefix_entries(&self, prefix: &Vec<u8>) -> (r: Vec<(Vec<u8>, Vec<u8>)>)
        requires
            self.wf(),
        ensures
            forall|i: int|
                0 <= i < r@.len() ==> {
                    let k = (#[trigger] r@[i]).0@;
                    &&& self@.contains_key(k)
                    &&& self@[k] == r@[i].1@
                    &&& k.len() >= prefix@.len()
                    &&& k.subrange(0, prefix@.len() as int) == prefix@
                },
            forall|k: Seq<u8>|
                #[trigger] self@.contains_key(k) && k.len() >= prefix@.len() && k.subrange(
                    0,
                    prefix@.len() as int,
                ) == prefix@ ==> exists|i: int| 0 <= i < r@.len() && r@[i].0@ == k,
            forall|i: int, j: int| 0 <= i < j < r@.len() ==> r@[i].0@ != r@[j].0@,
    {
        let mut r: Vec<(Vec<u8>, Vec<u8>)> = Vec::new();
        let ghost mut src: Seq<int> = Seq::empty();
        let mut i: usize = 0;
        while i < self.keys.len()
            invariant
                self.wf(),
                i <= self.keys@.len(),
                src.len() == r@.len(),
                forall|a: int| 0 <= a < src.len() ==> 0 <= #[trigger] src[a] < i && r@[a].0@ == self.keys@[src[a]]@,
                forall|a: int, b: int| 0 <= a < b < src.len() ==> src[a] < src[b],
                forall|a: int|
                    0 <= a < r@.len() ==> {
                        let k = (#[trigger] r@[a]).0@;
                        &&& self@.contains_key(k)
                        &&& self@[k] == r@[a].1@
                        &&& k.len() >= prefix@.len()
                        &&& k.subrange(0, prefix@.len() as int) == prefix@
                    },
                forall|j: int|
                    0 <= j < i && self.keys@[j]@.len() >= prefix@.len() && (#[trigger] self.keys@[j])@.subrange(
                        0,
                        prefix@.len() as int,
                    ) == prefix@ ==> exists|a: int| 0 <= a < r@.len() && r@[a].0@ == self.keys@[j]@,
            decreases self.keys@.len() - i,
        {
            let k = &self.keys[i];
            let ghost r0 = r@;
            if k.len() >= prefix.len() {
                let mut matches = true;
                let mut j: usize = 0;
                while j < prefix.len()
                    invariant
                        k@.len() >= prefix@.len(),
                        j <= prefix@.len(),
                        matches == (forall|t: int| 0 <= t < j ==> k@[t] == prefix@[t]),
                    decreases prefix@.len() - j,
                {
                    if k[j] != prefix[j] {
                        matches = false;
                    }
                    j = j + 1;
                }
                proof {
                    if matches {
                        assert(k@.subrange(0, prefix@.len() as int) =~= prefix@);
                    } else {
                        let t = choose|t: int| 0 <= t < prefix@.len() && k@[t] != prefix@[t];
                        assert(k@.subrange(0, prefix@.len() as int)[t] != prefix@[t]);
                    }
                }
                if matches {
                    let pair = (copy_bytes(k), copy_bytes(&self.values[i]));
                    r.push(pair);
                    proof {
                        src = src.push(i as int);
                        assert(r@[r@.len() - 1].0@ == self.keys@[i as int]@);
                    }
                }
            }
            proof {
                assert forall|a: int| 0 <= a < r0.len() implies r@[a] == r0[a] by {}
                assert forall|j: int|
                    0 <= j < i + 1 && self.keys@[j]@.len() >= prefix@.len() && (#[trigger] self.keys@[j])@.subrange(
                        0,
                        prefix@.len() as int,
                    ) == prefix@ implies exists|a: int| 0 <= a < r@.len() && r@[a].0@ == self.keys@[j]@ by {
                    if j < i {
                        let a = choose|a: int| 0 <= a < r0.len() && r0[a].0@ == self.keys@[j]@;
                        assert(r@[a] == r0[a]);
                    } else {
                        assert(r@[r@.len() - 1].0@ == self.keys@[j]@);
                    }
                }
            }
            i = i + 1;
        }
        proof {
            assert forall|k: Seq<u8>|
                #[trigger] self@.contains_key(k) && k.len() >= prefix@.len() && k.subrange(
                    0,
                    prefix@.len() as int,
                ) == prefix@ implies exists|i: int| 0 <= i < r@.len() && r@[i].0@ == k by {
                let j = choose|j: int| 0 <= j < self.keys@.len() && self.keys@[j]@ == k;
                assert(self.keys@[j]@.subrange(0, prefix@.len() as int) == prefix@);
            }
            assert forall|a: int, b: int| 0 <= a < b < r@.len() implies r@[a].0@ != r@[b].0@ by {
                assert(src[a] < src[b]);
            }
        }
        r
    }
}


/// The contents of a store: one map per state space.
pub struct StoreView {
    pub data: Map<Seq<u8>, Seq<u8>>,
    pub latest_ptr: Map<Seq<u8>, Seq<u8>>,
    pub rollback_ptr: Map<Seq<u8>, Seq<u8>>,
}

impl StoreView {
    pub open spec fn empty() -> StoreView {
        StoreView { data: Map::empty(), latest_ptr: Map::empty(), rollback_ptr: Map::empty() }
    }

    pub open spec fn space(self, space: StateSpace) -> Map<Seq<u8>, Seq<u8>> {
        match space {
            StateSpace::Data => self.data,
            StateSpace::LatestPtr => self.latest_ptr,
            StateSpace::RollbackPtr => self.rollback_ptr,
        }
    }

    pub open spec fn with_space(self, space: StateSpace, m: Map<Seq<u8>, Seq<u8>>) -> StoreView {
        match space {
            StateSpace::Data => StoreView { data: m, ..self },
            StateSpace::LatestPtr => StoreView { latest_ptr: m, ..self },
            StateSpace::RollbackPtr => StoreView { rollback_ptr: m, ..self },
        }
    }

    pub open spec fn put(self, space: StateSpace, key: Seq<u8>, value: Seq<u8>) -> StoreView {
        self.with_space(space, self.space(space).insert(key, value))
    }

    pub open spec fn delete(self, space: StateSpace, key: Seq<u8>) -> StoreView {
        self.with_space(space, self.space(space).remove(key))
    }
}

/// A single buffered write.
pub enum WriteOp {
    Put(StateSpace, Vec<u8>, Vec<u8>),
    Delete(StateSpace, Vec<u8>),
}

/// What a buffered write does, on byte sequences.
pub enum WriteOpView {
    Put(StateSpace, Seq<u8>, Seq<u8>),
    Delete(StateSpace, Seq<u8>),
}

impl View for WriteOp {
    type V = WriteOpView;

    open spec fn view(&self) -> WriteOpView {
        match self {
            WriteOp::Put(s, k, v) => WriteOpView::Put(*s, k@, v@),
            WriteOp::Delete(s, k) => WriteOpView::Delete(*s, k@),
        }
    }
}

pub open spec fn apply_op(s: StoreView, op: WriteOpView) -> StoreView {
    match op {
        WriteOpView::Put(space, k, v) => s.put(space, k, v),
        WriteOpView::Delete(space, k) => s.delete(space, k),
    }
}

/// The store after the writes `ops`, first to last.
pub open spec fn apply_ops(s: StoreView, ops: Seq<WriteOpView>) -> StoreView
    decreases ops.len(),
{
    if ops.len() == 0 {
        s
    } else {
        apply_op(apply_ops(s, ops.drop_last()), ops.last())
    }
}

/// Applying two lists of writes one after the other is applying their concatenation.
pub proof fn lemma_apply_ops_concat(s: StoreView, a: Seq<WriteOpView>, b: Seq<WriteOpView>)
    ensures
        apply_ops(s, a + b) == apply_ops(apply_ops(s, a), b),
    decreases b.len(),
{
    if b.len() == 0 {
        assert(a + b =~= a);
    } else {
        assert((a + b).drop_last() =~= a + b.drop_last());
        lemma_apply_ops_concat(s, a, b.drop_last());
    }
}

/// A list of writes that a store applies atomically.
pub struct WriteBatch {
    ops: Vec<WriteOp>,
}

impl View for WriteBatch {
    type V = Seq<WriteOpView>;

    closed spec fn view(&self) -> Seq<WriteOpView> {
        self.ops@.map_values(|op: WriteOp| op@)
    }
}

impl WriteBatch {
    pub fn new() -> (r: WriteBatch)
        ensures
            r@ == Seq::<WriteOpView>::empty(),
    {
        let r = WriteBatch { ops: Vec::new() };
        assert(r@ =~= Seq::<WriteOpView>::empty());
        r
    }

    pub fn put(&mut self, space: StateSpace, key: &Vec<u8>, value: &Vec<u8>)
        ensures
            final(self)@ == old(self)@.push(WriteOpView::Put(space, key@, value@)),
    {
        self.ops.push(WriteOp::Put(space, copy_bytes(key), copy_bytes(value)));
        assert(self@ =~= old(self)@.push(WriteOpView::Put(space, key@, value@)));
    }

    pub fn delete(&mut self, space: StateSpace, key: &Vec<u8>)
        ensures
            final(self)@ == old(self)@.push(WriteOpView::Delete(space, key@)),
    {
        self.ops.push(WriteOp::Delete(space, copy_bytes(key)));
        assert(self@ =~= old(self)@.push(WriteOpView::Delete(space, key@)));
    }

    pub fn len(&self) -> (r: usize)
        ensures
            r == self@.len(),
    {
        self.ops.len()
    }
}

/// A store with one column per state space.
pub struct Store {
    data: Column,
    latest_ptr: Column,
    rollback_ptr: Column,
}

impl View for Store {
    type V = StoreView;

    closed spec fn view(&self) -> StoreView {
        StoreView { data: self.data@, latest_ptr: self.latest_ptr@, rollback_ptr: self.rollback_ptr@ }
    }
}

impl Store {
    pub closed spec fn wf(&self) -> bool {
        self.data.wf() && self.latest_ptr.wf() && self.rollback_ptr.wf()
    }

    pub fn new() -> (r: Store)
        ensures
            r.wf(),
            r@ == StoreView::empty(),
    {
        Store { data: Column::new(), latest_ptr: Column::new(), rollback_ptr: Column::new() }
    }

    pub fn get(&self, space: StateSpace, key: &Vec<u8>) -> (r: Option<Vec<u8>>)
        requires
            self.wf(),
        ensures
            match r {
                Some(v) => self@.space(space).contains_key(key@) && self@.space(space)[key@] == v@,
                None => !self@.space(space).contains_key(key@),
            },
    {
        match space {
            StateSpace::Data => self.data.get(key),
            StateSpace::LatestPtr => self.latest_ptr.get(key),
            StateSpace::RollbackPtr => self.rollback_ptr.get(key),
        }
    }

    /// All entries of `space` whose key starts with `prefix`.
    pub fn prefix_iter(&self, space: StateSpace, prefix: &Vec<u8>) -> (r: Vec<(Vec<u8>, Vec<u8>)>)
        requires
            self.wf(),
        ensures
            forall|i: int|
                0 <= i < r@.len() ==> {
                    let k = (#[trigger] r@[i]).0@;
                    &&& self@.space(space).contains_key(k)
                    &&& self@.space(space)[k] == r@[i].1@
                    &&& k.len() >= prefix@.len()
                    &&& k.subrange(0, prefix@.len() as int) == prefix@
                },
            forall|k: Seq<u8>|
                #[trigger] self@.space(space).contains_key(k) && k.len() >= prefix@.len()
                    && k.subrange(0, prefix@.len() as int) == prefix@ ==> exists|i: int|
                    0 <= i < r@.len() && r@[i].0@ == k,
            forall|i: int, j: int| 0 <= i < j < r@.len() ==> r@[i].0@ != r@[j].0@,
    {
        match space {
            StateSpace::Data => self.data.prefix_entries(prefix),
            StateSpace::LatestPtr => self.latest_ptr.prefix_entries(prefix),
            StateSpace::RollbackPtr => self.rollback_ptr.prefix_entries(prefix),
        }
    }

    /// A fresh, empty write batch.
    pub fn write_batch(&self) -> (r: WriteBatch)
        ensures
            r@ == Seq::<WriteOpView>::empty(),
    {
        WriteBatch::new()
    }

    fn apply(&mut self, op: &WriteOp)
        requires
            old(self).wf(),
        ensures
            final(self).wf(),
            final(self)@ == apply_op(old(self)@, op@),
    {
        match op {
            WriteOp::Put(space, k, v) => match space {
                StateSpace::Data => self.data.put(k, v),
                StateSpace::LatestPtr => self.latest_ptr.put(k, v),
                StateSpace::RollbackPtr => self.rollback_ptr.put(k, v),
            },
            WriteOp::Delete(space, k) => match space {
                StateSpace::Data => self.data.delete(k),
                StateSpace::LatestPtr => self.latest_ptr.delete(k),
                StateSpace::RollbackPtr => self.rollback_ptr.delete(k),
            },
        }
    }

    /// Applies every write of `batch`, first to last.
    pub fn commit(&mut self, batch: WriteBatch)
        requires
            old(self).wf(),
        ensures
            final(self).wf(),
            final(self)@ == apply_ops(old(self)@, batch@),
    {
        let mut i: usize = 0;
        while i < batch.ops.len()
            invariant
                self.wf(),
                i <= batch@.len(),
                batch@.len() == batch.ops@.len(),
                self@ == apply_ops(old(self)@, batch@.take(i as int)),
            decreases batch.ops@.len() - i,
        {
            self.apply(&batch.ops[i]);
            proof {
                assert(batch@.take(i + 1).drop_last() =~= batch@.take(i as int));
                assert(batch@.take(i + 1).last() == batch.ops@[i as int]@);
            }
            i = i + 1;
        }
        assert(batch@.take(i as int) =~= batch@);
    }
}

} // verus!
