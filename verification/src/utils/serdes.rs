//! Integers and byte strings in the encoding that stored values have: little-endian, integers
//! at their full width, a `u64` length before a byte string.

use crate::utils::le;
use vstd::prelude::*;

verus! {

/// The encoding of a byte string.
pub open spec fn bytes_code(s: Seq<u8>) -> Seq<u8> {
    le::le8(s.len() as u64) + s
}

/// `bincode::encode_to_vec` on a `u64`, little-endian and with fixed-width integers: its
/// eight bytes, least significant first. Encoding into memory does not fail.
#[verifier::external_body]
pub(crate) fn encode_u64(v: u64) -> (r: Vec<u8>)
    ensures
        r@ == le::le8(v),
{
    bincode::encode_to_vec(v, bincode::config::standard().with_little_endian().with_fixed_int_encoding()).unwrap()
}

/// `bincode::encode_to_vec` on a byte string, in the same configuration: its length as a
/// `u64`, then its bytes. Encoding into memory does not fail.
#[verifier::external_body]
pub(crate) fn encode_bytes(v: &Vec<u8>) -> (r: Vec<u8>)
    ensures
        r@ == bytes_code(v@),
{
    bincode::encode_to_vec(v, bincode::config::standard().with_little_endian().with_fixed_int_encoding()).unwrap()
}

/// `bincode::decode_from_slice` of a `u64`, in the same configuration: the first eight bytes,
/// or an error where there are fewer. What follows them is not read.
#[verifier::external_body]
pub(crate) fn decode_u64(b: &[u8]) -> (r: Option<u64>)
    ensures
        r == if b@.len() >= 8 {
            Some(le::u64_at(b@, 0))
        } else {
            None
        },
{
    bincode::decode_from_slice(b, bincode::config::standard().with_little_endian().with_fixed_int_encoding())
        .ok()
        .map(|p: (u64, usize)| p.0)
}

/// `bincode::decode_from_slice` of a byte string, in the same configuration: as many bytes
/// behind the length as it says. It allocates that many before it reads, so it is only
/// called where they are there.
#[verifier::external_body]
pub(crate) fn decode_bytes(b: &[u8]) -> (r: Option<Vec<u8>>)
    requires
        b@.len() >= 8,
        8 + le::u64_at(b@, 0) <= b@.len(),
    ensures
        r is Some,
        r->0@ == b@.subrange(8, 8 + le::u64_at(b@, 0)),
{
    bincode::decode_from_slice(b, bincode::config::standard().with_little_endian().with_fixed_int_encoding())
        .ok()
        .map(|p: (Vec<u8>, usize)| p.0)
}

/// Reads a byte string back, or `None` where its length and bytes are not there.
pub fn read_bytes(b: &[u8]) -> (r: Option<Vec<u8>>)
    ensures
        match r {
            Some(v) => b@.len() >= 8 && 8 + le::u64_at(b@, 0) <= b@.len() && v@ == b@.subrange(
                8,
                8 + le::u64_at(b@, 0),
            ),
            None => b@.len() < 8 || 8 + le::u64_at(b@, 0) > b@.len(),
        },
{
    match decode_u64(b) {
        None => None,
        Some(n) => {
            if n > (b.len() - 8) as u64 {
                None
            } else {
                decode_bytes(b)
            }
        },
    }
}

/// A byte string is read back as it was written.
pub proof fn lemma_bytes_code(s: Seq<u8>)
    requires
        s.len() <= u64::MAX,
    ensures
        bytes_code(s).len() == 8 + s.len(),
        le::u64_at(bytes_code(s), 0) == s.len(),
        bytes_code(s).subrange(8, 8 + s.len() as int) == s,
{
    let b = bytes_code(s);
    assert forall|i: int| 0 <= i < 8 implies #[trigger] le::le8(s.len() as u64)[i] == b[0 + i] by {}
    le::lemma_le8(b, 0, s.len() as u64);
    assert(b.subrange(8, 8 + s.len() as int) =~= s);
}

/// Different byte strings have different encodings.
pub proof fn lemma_bytes_code_injective(a: Seq<u8>, b: Seq<u8>)
    requires
        a.len() <= u64::MAX,
        b.len() <= u64::MAX,
        bytes_code(a) == bytes_code(b),
    ensures
        a == b,
{
    lemma_bytes_code(a);
    lemma_bytes_code(b);
}

/// An integer is read back as it was written.
pub proof fn lemma_u64_code(v: u64)
    ensures
        le::le8(v).len() == 8,
        le::u64_at(le::le8(v), 0) == v,
{
    let b = le::le8(v);
    assert forall|i: int| 0 <= i < 8 implies #[trigger] le::le8(v)[i] == b[0 + i] by {}
    le::lemma_le8(b, 0, v);
}

} // verus!
