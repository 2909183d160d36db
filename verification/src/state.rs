//! The state a resource holds, and its serialised form.

use vstd::prelude::*;

verus! {

/// The eight little-endian bytes of `v`.
pub open spec fn le_u64(v: u64) -> Seq<u8> {
    seq![
        v as u8,
        (v >> 8u64) as u8,
        (v >> 16u64) as u8,
        (v >> 24u64) as u8,
        (v >> 32u64) as u8,
        (v >> 40u64) as u8,
        (v >> 48u64) as u8,
        (v >> 56u64) as u8,
    ]
}

/// The four little-endian bytes of `v`.
pub open spec fn le_u32(v: u32) -> Seq<u8> {
    seq![v as u8, (v >> 8u32) as u8, (v >> 16u32) as u8, (v >> 24u32) as u8]
}

/// The Borsh encoding of the fields `owner`, `data` and `balance`, in that order:
/// integers little-endian, a byte vector as its `u32` length followed by its bytes.
pub open spec fn borsh_state(owner: u64, data: Seq<u8>, balance: u64) -> Seq<u8> {
    le_u64(owner) + le_u32(data.len() as u32) + data + le_u64(balance)
}

/// `borsh::to_vec` applied to the tuple `(owner, data, balance)`. It fails exactly when
/// the length of `data` does not fit in a `u32`.
#[verifier::external_body]
fn borsh_to_vec(owner: u64, data: &Vec<u8>, balance: u64) -> (r: Option<Vec<u8>>)
    ensures
        r is Some <==> data@.len() <= u32::MAX,
        r matches Some(bytes) ==> bytes@ == borsh_state(owner, data@, balance),
{
    borsh::to_vec(&(owner, data, balance)).ok()
}

/// `bytes` is the Borsh encoding of the fields `owner`, `data` and `balance`.
pub open spec fn encodes(bytes: Seq<u8>, owner: u64, data: Seq<u8>, balance: u64) -> bool {
    data.len() <= u32::MAX && bytes == borsh_state(owner, data, balance)
}

/// `bytes` is the Borsh encoding of some state.
pub open spec fn decodable(bytes: Seq<u8>) -> bool {
    exists|owner: u64, data: Seq<u8>, balance: u64| encodes(bytes, owner, data, balance)
}

/// The fields that `bytes` encodes, where `decodable(bytes)`.
pub open spec fn decoded(bytes: Seq<u8>) -> (u64, Seq<u8>, u64) {
    choose|owner: u64, data: Seq<u8>, balance: u64| encodes(bytes, owner, data, balance)
}

proof fn lemma_le_u64_injective(a: u64, b: u64)
    ensures
        le_u64(a) == le_u64(b) ==> a == b,
{
    if le_u64(a) == le_u64(b) {
        assert(le_u64(a)[0] == le_u64(b)[0] && le_u64(a)[1] == le_u64(b)[1] && le_u64(a)[2] == le_u64(b)[2]);
        assert(le_u64(a)[3] == le_u64(b)[3] && le_u64(a)[4] == le_u64(b)[4] && le_u64(a)[5] == le_u64(b)[5]);
        assert(le_u64(a)[6] == le_u64(b)[6] && le_u64(a)[7] == le_u64(b)[7]);
        assert(a == b) by (bit_vector)
            requires
                a as u8 == b as u8,
                (a >> 8u64) as u8 == (b >> 8u64) as u8,
                (a >> 16u64) as u8 == (b >> 16u64) as u8,
                (a >> 24u64) as u8 == (b >> 24u64) as u8,
                (a >> 32u64) as u8 == (b >> 32u64) as u8,
                (a >> 40u64) as u8 == (b >> 40u64) as u8,
                (a >> 48u64) as u8 == (b >> 48u64) as u8,
                (a >> 56u64) as u8 == (b >> 56u64) as u8,
        ;
    }
}

proof fn lemma_le_u32_injective(a: u32, b: u32)
    ensures
        le_u32(a) == le_u32(b) ==> a == b,
{
    if le_u32(a) == le_u32(b) {
        assert(le_u32(a)[0] == le_u32(b)[0] && le_u32(a)[1] == le_u32(b)[1]);
        assert(le_u32(a)[2] == le_u32(b)[2] && le_u32(a)[3] == le_u32(b)[3]);
        assert(a == b) by (bit_vector)
            requires
                a as u8 == b as u8,
                (a >> 8u32) as u8 == (b >> 8u32) as u8,
                (a >> 16u32) as u8 == (b >> 16u32) as u8,
                (a >> 24u32) as u8 == (b >> 24u32) as u8,
        ;
    }
}

/// An encoding determines the fields it encodes.
pub proof fn lemma_borsh_state_injective(o1: u64, d1: Seq<u8>, b1: u64, o2: u64, d2: Seq<u8>, b2: u64)
    requires
        d1.len() <= u32::MAX,
        d2.len() <= u32::MAX,
        borsh_state(o1, d1, b1) == borsh_state(o2, d2, b2),
    ensures
        o1 == o2 && d1 == d2 && b1 == b2,
{
    let e = borsh_state(o1, d1, b1);
    assert(e.subrange(0, 8) =~= le_u64(o1));
    assert(borsh_state(o2, d2, b2).subrange(0, 8) =~= le_u64(o2));
    lemma_le_u64_injective(o1, o2);
    assert(e.subrange(8, 12) =~= le_u32(d1.len() as u32));
    assert(borsh_state(o2, d2, b2).subrange(8, 12) =~= le_u32(d2.len() as u32));
    lemma_le_u32_injective(d1.len() as u32, d2.len() as u32);
    assert(d1.len() == d2.len());
    let n = d1.len() as int;
    assert(e.subrange(12, 12 + n) =~= d1);
    assert(borsh_state(o2, d2, b2).subrange(12, 12 + n) =~= d2);
    assert(e.subrange(12 + n, 20 + n) =~= le_u64(b1));
    assert(borsh_state(o2, d2, b2).subrange(12 + n, 20 + n) =~= le_u64(b2));
    lemma_le_u64_injective(b1, b2);
}

/// Decoding an encoding gives its fields back.
pub proof fn lemma_decode_encoding(owner: u64, data: Seq<u8>, balance: u64)
    requires
        data.len() <= u32::MAX,
    ensures
        decodable(borsh_state(owner, data, balance)),
        decoded(borsh_state(owner, data, balance)) == (owner, data, balance),
{
    let bytes = borsh_state(owner, data, balance);
    assert(encodes(bytes, owner, data, balance));
    let (o, d, b) = decoded(bytes);
    lemma_borsh_state_injective(o, d, b, owner, data, balance);
}

/// `borsh::from_slice` of the tuple `(owner, data, balance)`. It reads the fields in order,
/// integers little-endian and the data as its `u32` length then its bytes, and fails if
/// bytes are missing or left over; an encoding decodes to the fields it encodes.
#[verifier::external_body]
pub(crate) fn borsh_from_slice(bytes: &[u8]) -> (r: Option<State>)
    ensures
        r is Some ==> encodes(bytes@, r->0.owner, r->0.data@, r->0.balance),
        forall|o: u64, d: Seq<u8>, b: u64|
            #[trigger] encodes(bytes@, o, d, b) ==> r is Some && r->0.owner == o && r->0.data@ == d && r->0.balance == b,
{
    match borsh::from_slice::<(u64, Vec<u8>, u64)>(bytes) {
        Ok((owner, data, balance)) => Some(State { owner, data, balance }),
        Err(_) => None,
    }
}

/// The state of a resource: its owner, its data and its balance.
pub struct State {
    pub owner: u64,
    pub data: Vec<u8>,
    pub balance: u64,
}

impl State {
    /// The Borsh encoding of the state.
    pub fn to_bytes(&self) -> (r: Vec<u8>)
        requires
            self.data@.len() <= u32::MAX,
        ensures
            r@ == borsh_state(self.owner, self.data@, self.balance),
    {
        match borsh_to_vec(self.owner, &self.data, self.balance) {
            Some(bytes) => bytes,
            None => {
                assert(false);
                Vec::new()
            },
        }
    }

    /// A copy with equal fields.
    pub fn duplicate(&self) -> (r: State)
        ensures
            r.owner == self.owner,
            r.data@ == self.data@,
            r.balance == self.balance,
    {
        State { owner: self.owner, data: crate::store::copy_bytes(&self.data), balance: self.balance }
    }
}

impl Default for State {
    fn default() -> (r: State)
        ensures
            r.owner == 0,
            r.data@ == Seq::<u8>::empty(),
            r.balance == 0,
    {
        State { owner: 0, data: Vec::new(), balance: 0 }
    }
}

} // verus!
