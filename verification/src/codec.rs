//! Big-endian integer encoding and the key layouts of the state spaces.

use vstd::prelude::*;

verus! {

/// The eight big-endian bytes of `v`.
pub open spec fn be_bytes(v: u64) -> Seq<u8> {
    seq![
        (v >> 56u64) as u8,
        (v >> 48u64) as u8,
        (v >> 40u64) as u8,
        (v >> 32u64) as u8,
        (v >> 24u64) as u8,
        (v >> 16u64) as u8,
        (v >> 8u64) as u8,
        v as u8,
    ]
}

/// The integer whose big-endian encoding is the first eight bytes of `s`.
pub open spec fn from_be(s: Seq<u8>) -> u64
    recommends
        s.len() >= 8,
{
    ((s[0] as u64) << 56u64) | ((s[1] as u64) << 48u64) | ((s[2] as u64) << 40u64) | ((s[3] as u64)
        << 32u64) | ((s[4] as u64) << 24u64) | ((s[5] as u64) << 16u64) | ((s[6] as u64) << 8u64)
        | (s[7] as u64)
}

/// Decoding an encoding gives the integer back.
pub proof fn lemma_from_be_of_be_bytes(v: u64)
    ensures
        from_be(be_bytes(v)) == v,
        be_bytes(v).len() == 8,
{
    let b0 = (v >> 56u64) as u8;
    let b1 = (v >> 48u64) as u8;
    let b2 = (v >> 40u64) as u8;
    let b3 = (v >> 32u64) as u8;
    let b4 = (v >> 24u64) as u8;
    let b5 = (v >> 16u64) as u8;
    let b6 = (v >> 8u64) as u8;
    let b7 = v as u8;
    assert(((b0 as u64) << 56u64) | ((b1 as u64) << 48u64) | ((b2 as u64) << 40u64) | ((b3 as u64)
        << 32u64) | ((b4 as u64) << 24u64) | ((b5 as u64) << 16u64) | ((b6 as u64) << 8u64) | (b7 as u64)
        == v) by (bit_vector)
        requires
            b0 == (v >> 56u64) as u8,
            b1 == (v >> 48u64) as u8,
            b2 == (v >> 40u64) as u8,
            b3 == (v >> 32u64) as u8,
            b4 == (v >> 24u64) as u8,
            b5 == (v >> 16u64) as u8,
            b6 == (v >> 8u64) as u8,
            b7 == v as u8,
    ;
}

/// Two integers with the same encoding are equal.
pub proof fn lemma_be_bytes_injective(a: u64, b: u64)
    ensures
        be_bytes(a) == be_bytes(b) ==> a == b,
{
    lemma_from_be_of_be_bytes(a);
    lemma_from_be_of_be_bytes(b);
}

/// Encoding a decoded prefix gives the first eight bytes back.
pub proof fn lemma_be_bytes_of_from_be(s: Seq<u8>)
    requires
        s.len() >= 8,
    ensures
        be_bytes(from_be(s)) == s.subrange(0, 8),
{
    let b0 = s[0];
    let b1 = s[1];
    let b2 = s[2];
    let b3 = s[3];
    let b4 = s[4];
    let b5 = s[5];
    let b6 = s[6];
    let b7 = s[7];
    let v = from_be(s);
    assert(v == ((b0 as u64) << 56u64) | ((b1 as u64) << 48u64) | ((b2 as u64) << 40u64) | ((b3 as u64)
        << 32u64) | ((b4 as u64) << 24u64) | ((b5 as u64) << 16u64) | ((b6 as u64) << 8u64) | (b7 as u64));
    assert((v >> 56u64) as u8 == b0 && (v >> 48u64) as u8 == b1 && (v >> 40u64) as u8 == b2 && (v >> 32u64) as u8
        == b3 && (v >> 24u64) as u8 == b4 && (v >> 16u64) as u8 == b5 && (v >> 8u64) as u8 == b6 && v as u8
        == b7) by (bit_vector)
        requires
            v == ((b0 as u64) << 56u64) | ((b1 as u64) << 48u64) | ((b2 as u64) << 40u64) | ((b3 as u64)
                << 32u64) | ((b4 as u64) << 24u64) | ((b5 as u64) << 16u64) | ((b6 as u64) << 8u64) | (b7 as u64),
    ;
    assert(be_bytes(v) =~= s.subrange(0, 8));
}

/// The key under which two integers are stored side by side: `be(a) || be(b)`.
pub open spec fn pair_key(a: u64, b: u64) -> Seq<u8> {
    be_bytes(a) + be_bytes(b)
}

/// `pair_key` determines both of its parts.
pub proof fn lemma_pair_key_injective(a: u64, b: u64, c: u64, d: u64)
    ensures
        pair_key(a, b) == pair_key(c, d) ==> a == c && b == d,
        pair_key(a, b).len() == 16,
        pair_key(a, b).subrange(0, 8) == be_bytes(a),
        pair_key(a, b).subrange(8, 16) == be_bytes(b),
{
    lemma_from_be_of_be_bytes(a);
    lemma_from_be_of_be_bytes(b);
    assert(pair_key(a, b).subrange(0, 8) =~= be_bytes(a));
    assert(pair_key(a, b).subrange(8, 16) =~= be_bytes(b));
    assert(pair_key(c, d).subrange(0, 8) =~= be_bytes(c));
    assert(pair_key(c, d).subrange(8, 16) =~= be_bytes(d));
    if pair_key(a, b) == pair_key(c, d) {
        lemma_be_bytes_injective(a, c);
        lemma_be_bytes_injective(b, d);
    }
}

/// Encodes `v` as eight big-endian bytes.
pub fn u64_to_be_bytes(v: u64) -> (r: Vec<u8>)
    ensures
        r@ == be_bytes(v),
{
    let mut r: Vec<u8> = Vec::new();
    r.push((v >> 56u64) as u8);
    r.push((v >> 48u64) as u8);
    r.push((v >> 40u64) as u8);
    r.push((v >> 32u64) as u8);
    r.push((v >> 24u64) as u8);
    r.push((v >> 16u64) as u8);
    r.push((v >> 8u64) as u8);
    r.push(v as u8);
    assert(r@ =~= be_bytes(v));
    r
}

/// Decodes the first eight bytes of `s` as a big-endian integer.
pub fn u64_from_be_bytes(s: &[u8]) -> (r: u64)
    requires
        s@.len() >= 8,
    ensures
        r == from_be(s@),
{
    ((s[0] as u64) << 56u64) | ((s[1] as u64) << 48u64) | ((s[2] as u64) << 40u64) | ((s[3] as u64)
        << 32u64) | ((s[4] as u64) << 24u64) | ((s[5] as u64) << 16u64) | ((s[6] as u64) << 8u64)
        | (s[7] as u64)
}

/// Decodes the eight bytes of `s` that start at `offset`.
pub fn u64_from_be_bytes_at(s: &Vec<u8>, offset: usize) -> (r: u64)
    requires
        offset + 8 <= s@.len(),
    ensures
        r == from_be(s@.subrange(offset as int, offset + 8)),
{
    let _n = s.len();
    let b0 = s[offset];
    let b1 = s[offset + 1];
    let b2 = s[offset + 2];
    let b3 = s[offset + 3];
    let b4 = s[offset + 4];
    let b5 = s[offset + 5];
    let b6 = s[offset + 6];
    let b7 = s[offset + 7];
    let ghost sub = s@.subrange(offset as int, offset + 8);
    assert(sub[0] == b0 && sub[1] == b1 && sub[2] == b2 && sub[3] == b3);
    assert(sub[4] == b4 && sub[5] == b5 && sub[6] == b6 && sub[7] == b7);
    ((b0 as u64) << 56u64) | ((b1 as u64) << 48u64) | ((b2 as u64) << 40u64) | ((b3 as u64) << 32u64)
        | ((b4 as u64) << 24u64) | ((b5 as u64) << 16u64) | ((b6 as u64) << 8u64) | (b7 as u64)
}

/// The concatenation `be(a) || be(b)`.
pub fn concat_be(a: u64, b: u64) -> (r: Vec<u8>)
    ensures
        r@ == pair_key(a, b),
{
    let mut r = u64_to_be_bytes(a);
    let mut tail = u64_to_be_bytes(b);
    r.append(&mut tail);
    r
}

} // verus!
