//! The calls into other crates and into parts of the standard library, each with the contract
//! that the rest of this crate relies on.
use crate::text::{sorted, texts};
use bytes::{Buf, Bytes};
use vstd::prelude::*;

verus! {

/// `bytes::Bytes` is opaque: what it holds is named by [`contents`].
#[verifier::external_type_specification]
#[verifier::external_body]
pub struct ExBytes(bytes::Bytes);

/// The bytes that a `Bytes` handle gives access to.
pub uninterp spec fn contents(b: bytes::Bytes) -> Seq<u8>;

/// The CRC-32C (Castagnoli) checksum of a sequence of bytes.
pub uninterp spec fn crc32c_of(data: Seq<u8>) -> u32;

/// Calls `crc32c::crc32c`. The result is a function of the bytes alone.
#[verifier::external_body]
pub(crate) fn crc32c(data: &[u8]) -> (crc: u32)
    ensures
        crc == crc32c_of(data@),
{
    crc32c::crc32c(data)
}

/// Calls `Bytes::len`: the number of bytes held.
#[verifier::external_body]
pub(crate) fn bytes_len(b: &Bytes) -> (n: usize)
    ensures
        n == contents(*b).len(),
{
    b.len()
}

/// Calls `Bytes::deref`: the bytes held, as a slice.
#[verifier::external_body]
pub(crate) fn bytes_as_slice(b: &Bytes) -> (s: &[u8])
    ensures
        s@ == contents(*b),
{
    b
}

/// Calls `Bytes::from(Vec<u8>)`: a handle to exactly the bytes of the vector.
#[verifier::external_body]
pub(crate) fn bytes_from_vec(v: Vec<u8>) -> (b: Bytes)
    ensures
        contents(b) == v@,
{
    Bytes::from(v)
}

/// Calls `Bytes::split_to`: the first `at` bytes are handed out, the rest stays. It panics past
/// the end.
#[verifier::external_body]
pub(crate) fn bytes_split_to(b: &mut Bytes, at: usize) -> (front: Bytes)
    requires
        at <= contents(*old(b)).len(),
    ensures
        contents(front) == contents(*old(b)).take(at as int),
        contents(*final(b)) == contents(*old(b)).skip(at as int),
{
    b.split_to(at)
}

/// Calls `Buf::advance` on a `Bytes`: the first `cnt` bytes are dropped. It panics past the end.
#[verifier::external_body]
pub(crate) fn bytes_advance(b: &mut Bytes, cnt: usize)
    requires
        cnt <= contents(*old(b)).len(),
    ensures
        contents(*final(b)) == contents(*old(b)).skip(cnt as int),
{
    b.advance(cnt)
}

/// Calls `u16::to_ne_bytes`: the two bytes, in the order of the machine that runs the program. Which
/// order that is stays open: `endianness` stands for it.
#[verifier::external_body]
pub(crate) fn u16_to_ne_bytes(n: u16) -> (r: [u8; 2])
    ensures
        r@ == (match vstd::endian::endianness() {
            vstd::endian::Endian::Little => seq![n as u8, (n >> 8) as u8],
            vstd::endian::Endian::Big => seq![(n >> 8) as u8, n as u8],
        }),
{
    n.to_ne_bytes()
}

/// Calls `sort_unstable` on the strings of a vector: the same texts, in ascending order. Strings
/// are ordered by their bytes, which is the order of their characters.
#[verifier::external_body]
pub(crate) fn sort_names(names: &mut Vec<String>)
    ensures
        texts(final(names)@).to_multiset() == texts(old(names)@).to_multiset(),
        sorted(texts(final(names)@)),
{
    names.sort_unstable()
}

} // verus!
