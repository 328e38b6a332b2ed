//! The byte buffers that values are written to and read from.
//!
//! The buffers are those of the `bytes` crate. Contracts see a buffer only through
//! [`buffer_bytes`], the bytes that it holds; each function of the crate that
//! the codec relies on is declared here with what it does to those bytes.

use bytes::{Buf, BufMut, Bytes, BytesMut};
use vstd::arithmetic::power::pow;
use vstd::prelude::*;

verus! {

/// `bytes::BytesMut`, known by [`buffer_bytes`] alone.
#[verifier::external_type_specification]
#[verifier::external_body]
pub struct ExBytesMut(BytesMut);

/// `bytes::Bytes`, known by [`chunk_bytes`] alone.
#[verifier::external_type_specification]
#[verifier::external_body]
pub struct ExBytes(Bytes);

/// `std::io::Error`, of which nothing is known.
#[verifier::external_type_specification]
#[verifier::external_body]
pub struct ExIoError(std::io::Error);

/// The bytes that a growable buffer holds, first byte first.
pub uninterp spec fn buffer_bytes(buf: BytesMut) -> Seq<u8>;

/// The bytes that an immutable chunk holds, first byte first.
pub uninterp spec fn chunk_bytes(chunk: Bytes) -> Seq<u8>;

/// `BytesMut::new`: a buffer that holds nothing.
#[verifier::external_body]
pub(crate) fn empty_buffer() -> (buf: BytesMut)
    ensures
        buffer_bytes(buf) == Seq::<u8>::empty(),
{
    BytesMut::new()
}

/// `BytesMut::clone`: another buffer with the same bytes.
#[verifier::external_body]
pub(crate) fn copy_buffer(buf: &BytesMut) -> (copy: BytesMut)
    ensures
        buffer_bytes(copy) == buffer_bytes(*buf),
{
    buf.clone()
}

/// `BytesMut::len`: how many bytes the buffer holds.
#[verifier::external_body]
pub(crate) fn buffer_len(buf: &BytesMut) -> (n: usize)
    ensures
        n == buffer_bytes(*buf).len(),
{
    buf.len()
}

/// `BufMut::put_u8` on a `BytesMut`: one byte is appended.
#[verifier::external_body]
pub(crate) fn put_u8(dst: &mut BytesMut, v: u8)
    ensures
        buffer_bytes(*final(dst)) == buffer_bytes(*old(dst)).push(v),
{
    dst.put_u8(v)
}

/// `BufMut::put_i8` on a `BytesMut`: one byte is appended, the two's complement
/// representation of the number.
#[verifier::external_body]
pub(crate) fn put_i8(dst: &mut BytesMut, v: i8)
    ensures
        buffer_bytes(*final(dst)) == buffer_bytes(*old(dst)).push(v as u8),
{
    dst.put_i8(v)
}

/// `BufMut::put_slice` on a `BytesMut`: the bytes of the slice are appended in
/// their order.
#[verifier::external_body]
pub(crate) fn put_slice(dst: &mut BytesMut, src: &[u8])
    ensures
        buffer_bytes(*final(dst)) == buffer_bytes(*old(dst)) + src@,
{
    dst.put_slice(src)
}

/// Little-endian bytes of a number, `n` of them.
pub open spec fn little_endian(v: nat, n: nat) -> Seq<u8>
    decreases n,
{
    if n == 0 {
        seq![]
    } else {
        seq![(v % 256) as u8] + little_endian(v / 256, (n - 1) as nat)
    }
}

/// The number that `bytes` are the little-endian bytes of.
pub open spec fn from_little_endian(bytes: Seq<u8>) -> nat
    decreases bytes.len(),
{
    if bytes.len() == 0 {
        0
    } else {
        bytes[0] as nat + 256 * from_little_endian(bytes.skip(1))
    }
}

/// A number is what its bytes say, if they are enough to hold it.
pub proof fn lemma_little_endian(v: nat, n: nat)
    requires
        v < pow(256, n),
    ensures
        little_endian(v, n).len() == n,
        from_little_endian(little_endian(v, n)) == v,
    decreases n,
{
    reveal(pow);
    if n > 0 {
        let bytes = little_endian(v, n);
        assert(v / 256 < pow(256, (n - 1) as nat)) by {
            assert(pow(256, n) == 256 * pow(256, (n - 1) as nat));
        }
        lemma_little_endian(v / 256, (n - 1) as nat);
        assert(bytes.skip(1) =~= little_endian(v / 256, (n - 1) as nat));
    }
}

/// `BufMut::put_u32_le` on a `BytesMut`: four bytes are appended, the least
/// significant first.
#[verifier::external_body]
pub(crate) fn put_u32_le(dst: &mut BytesMut, v: u32)
    ensures
        buffer_bytes(*final(dst)) == buffer_bytes(*old(dst)) + little_endian(v as nat, 4),
{
    dst.put_u32_le(v)
}

/// `BufMut::put_u64_le` on a `BytesMut`: eight bytes are appended, the least
/// significant first.
#[verifier::external_body]
pub(crate) fn put_u64_le(dst: &mut BytesMut, v: u64)
    ensures
        buffer_bytes(*final(dst)) == buffer_bytes(*old(dst)) + little_endian(v as nat, 8),
{
    dst.put_u64_le(v)
}

/// `Buf::get_u8` on a `BytesMut`: the first byte is taken out and returned.
#[verifier::external_body]
pub(crate) fn get_u8(src: &mut BytesMut) -> (v: u8)
    requires
        buffer_bytes(*old(src)).len() > 0,
    ensures
        v == buffer_bytes(*old(src))[0],
        buffer_bytes(*final(src)) == buffer_bytes(*old(src)).skip(1),
{
    src.get_u8()
}

/// `Buf::get_u32_le` on a `BytesMut`: four bytes are taken out, and the number
/// that they are the little-endian bytes of is returned.
#[verifier::external_body]
pub(crate) fn get_u32_le(src: &mut BytesMut) -> (v: u32)
    requires
        buffer_bytes(*old(src)).len() >= 4,
    ensures
        v as nat == from_little_endian(buffer_bytes(*old(src)).take(4)),
        buffer_bytes(*final(src)) == buffer_bytes(*old(src)).skip(4),
{
    src.get_u32_le()
}

/// `Buf::get_u64_le` on a `BytesMut`: eight bytes are taken out, and the number
/// that they are the little-endian bytes of is returned.
#[verifier::external_body]
pub(crate) fn get_u64_le(src: &mut BytesMut) -> (v: u64)
    requires
        buffer_bytes(*old(src)).len() >= 8,
    ensures
        v as nat == from_little_endian(buffer_bytes(*old(src)).take(8)),
        buffer_bytes(*final(src)) == buffer_bytes(*old(src)).skip(8),
{
    src.get_u64_le()
}

/// `BytesMut::split_to`: the first `n` bytes are taken out and returned, as a
/// vector.
#[verifier::external_body]
pub(crate) fn take_bytes(src: &mut BytesMut, n: usize) -> (front: Vec<u8>)
    requires
        n <= buffer_bytes(*old(src)).len(),
    ensures
        front@ == buffer_bytes(*old(src)).take(n as int),
        buffer_bytes(*final(src)) == buffer_bytes(*old(src)).skip(n as int),
{
    src.split_to(n).to_vec()
}

/// `Bytes::len`: how many bytes the chunk holds.
#[verifier::external_body]
pub(crate) fn chunk_len(chunk: &Bytes) -> (n: usize)
    ensures
        n == chunk_bytes(*chunk).len(),
{
    chunk.len()
}

/// `Bytes::as_ref`: the bytes of the chunk.
#[verifier::external_body]
pub(crate) fn chunk_slice(chunk: &Bytes) -> (bytes: &[u8])
    ensures
        bytes@ == chunk_bytes(*chunk),
{
    chunk.as_ref()
}

/// `Bytes::split_off`: the chunk keeps its first `n` bytes, the others are
/// returned.
#[verifier::external_body]
pub(crate) fn split_chunk(chunk: &mut Bytes, n: usize) -> (rest: Bytes)
    requires
        n <= chunk_bytes(*old(chunk)).len(),
    ensures
        chunk_bytes(*final(chunk)) == chunk_bytes(*old(chunk)).take(n as int),
        chunk_bytes(rest) == chunk_bytes(*old(chunk)).skip(n as int),
{
    chunk.split_off(n)
}

} // verus!
