//! What a transaction declares about the resources it touches.

use vstd::prelude::*;

verus! {

/// Whether an access only reads a resource or may also write it.
#[derive(Clone, Copy, PartialEq, Eq, Structural, Debug)]
pub enum AccessType {
    Read,
    Write,
}

/// The resource a transaction accesses and how.
#[derive(Clone, Copy, PartialEq, Eq, Structural, Debug)]
pub struct AccessMetadata {
    pub id: u64,
    pub access_type: AccessType,
}

impl AccessMetadata {
    pub fn id(&self) -> (r: u64)
        ensures
            r == self.id,
    {
        self.id
    }

    pub fn access_type(&self) -> (r: AccessType)
        ensures
            r == self.access_type,
    {
        self.access_type
    }
}

/// A transaction: what the VM executes, and the resources it accesses, in order.
pub struct Transaction<P> {
    pub payload: P,
    pub accesses: Vec<AccessMetadata>,
}

impl<P> Transaction<P> {
    pub open spec fn accessed(&self) -> Seq<AccessMetadata> {
        self.accesses@
    }

    pub fn accessed_resources(&self) -> (r: &[AccessMetadata])
        ensures
            r@ == self.accessed(),
    {
        self.accesses.as_slice()
    }
}

/// No resource is accessed twice by one transaction.
pub open spec fn distinct_resources(accesses: Seq<AccessMetadata>) -> bool {
    forall|i: int, j: int| 0 <= i < j < accesses.len() ==> accesses[i].id != accesses[j].id
}

/// Whether no resource occurs twice in `accesses`.
pub fn has_distinct_resources(accesses: &[AccessMetadata]) -> (r: bool)
    ensures
        r == distinct_resources(accesses@),
{
    let n = accesses.len();
    let mut j: usize = 1;
    while j < n
        invariant
            n == accesses@.len(),
            1 <= j <= n || n == 0,
            forall|a: int, b: int| 0 <= a < b < j && b < n ==> accesses@[a].id != accesses@[b].id,
        decreases n - j,
    {
        let mut i: usize = 0;
        while i < j
            invariant
                n == accesses@.len(),
                1 <= j < n,
                i <= j,
                forall|a: int, b: int| 0 <= a < b < j ==> accesses@[a].id != accesses@[b].id,
                forall|a: int| 0 <= a < i ==> accesses@[a].id != accesses@[j as int].id,
            decreases j - i,
        {
            if accesses[i].id == accesses[j].id {
                return false;
            }
            i = i + 1;
        }
        j = j + 1;
    }
    true
}

} // verus!
